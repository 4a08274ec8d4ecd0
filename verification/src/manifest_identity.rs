//! Stable 128-bit identities and their compact columnar form.
//!
//! An identity is a 14-byte allocation prefix followed by a 2-byte big-endian
//! counter. A column stores each distinct prefix once, in increasing order, and
//! for every ordinal a packed index into that table and the counter.

use std::collections::HashSet;
use vstd::prelude::*;
use vstd::arithmetic::power2::*;

verus! {

broadcast use vstd::std_specs::hash::group_hash_axioms;

pub const PREFIX_BYTES: usize = 14;
pub const COUNTER_BYTES: usize = 2;
pub const IDENTIFIER_BYTES: usize = 16;
pub const COUNTERS_PER_PREFIX: u32 = 65536;

/// The number of draws after which a random source that keeps repeating itself
/// is reported as unavailable: more than any process makes.
pub const MAX_PREFIX_DRAWS: u64 = u64::MAX;

/// Why a column cannot be written or read, or an identity cannot be issued.
#[derive(Clone, Copy, Debug, PartialEq, Eq, Structural)]
pub enum IdentityError {
    PrefixColumnLength,
    NoPrefixes,
    IndexWidth,
    IndexLengthOverflow,
    IndexColumnLength,
    CounterLengthOverflow,
    CounterColumnLength,
    IndexPadding,
    PrefixesNotCanonical,
    IndexOutsideTable,
    ZeroIdentity,
    DuplicateIdentity,
    UnusedPrefix,
    PrefixesExhausted,
    RandomnessUnavailable,
}

impl IdentityError {
    pub open spec fn text(self) -> Seq<char> {
        match self {
            IdentityError::PrefixColumnLength => "identity prefix column length is invalid"@,
            IdentityError::NoPrefixes => "nonempty identity column has no allocation prefixes"@,
            IdentityError::IndexWidth => "identity block index width is not canonical"@,
            IdentityError::IndexLengthOverflow => "identity block index length overflows"@,
            IdentityError::IndexColumnLength => "identity block index column length is invalid"@,
            IdentityError::CounterLengthOverflow => "identity counter length overflows"@,
            IdentityError::CounterColumnLength => "identity counter column length is invalid"@,
            IdentityError::IndexPadding => "identity block index padding is nonzero"@,
            IdentityError::PrefixesNotCanonical => "identity allocation prefixes are not canonical"@,
            IdentityError::IndexOutsideTable => "identity block index is outside its prefix table"@,
            IdentityError::ZeroIdentity => "Carbon identity cannot be zero"@,
            IdentityError::DuplicateIdentity => "Carbon identity is duplicated"@,
            IdentityError::UnusedPrefix => "identity allocation prefix is unused"@,
            IdentityError::PrefixesExhausted => "identity prefixes are exhausted"@,
            IdentityError::RandomnessUnavailable => "operating-system identity randomness is unavailable"@,
        }
    }

    /// The text shown to a user.
    pub fn message(&self) -> (text: &'static str)
        ensures
            text@ == self.text(),
    {
        match self {
            IdentityError::PrefixColumnLength => "identity prefix column length is invalid",
            IdentityError::NoPrefixes => "nonempty identity column has no allocation prefixes",
            IdentityError::IndexWidth => "identity block index width is not canonical",
            IdentityError::IndexLengthOverflow => "identity block index length overflows",
            IdentityError::IndexColumnLength => "identity block index column length is invalid",
            IdentityError::CounterLengthOverflow => "identity counter length overflows",
            IdentityError::CounterColumnLength => "identity counter column length is invalid",
            IdentityError::IndexPadding => "identity block index padding is nonzero",
            IdentityError::PrefixesNotCanonical => "identity allocation prefixes are not canonical",
            IdentityError::IndexOutsideTable => "identity block index is outside its prefix table",
            IdentityError::ZeroIdentity => "Carbon identity cannot be zero",
            IdentityError::DuplicateIdentity => "Carbon identity is duplicated",
            IdentityError::UnusedPrefix => "identity allocation prefix is unused",
            IdentityError::PrefixesExhausted => "identity prefixes are exhausted",
            IdentityError::RandomnessUnavailable => "operating-system identity randomness is unavailable",
        }
    }
}

// ---------------------------------------------------------------------------
// Big-endian numbers

/// The number that `bytes` spells, most significant byte first.
pub open spec fn be_value(bytes: Seq<u8>) -> nat
    decreases bytes.len(),
{
    if bytes.len() == 0 {
        0
    } else {
        be_value(bytes.drop_last()) * 256 + bytes.last() as nat
    }
}

/// One more than the largest number that `len` bytes can spell.
pub open spec fn byte_limit(len: nat) -> nat
    decreases len,
{
    if len == 0 {
        1
    } else {
        byte_limit((len - 1) as nat) * 256
    }
}

proof fn lemma_be_bound(bytes: Seq<u8>)
    ensures
        be_value(bytes) < byte_limit(bytes.len()),
    decreases bytes.len(),
{
    if bytes.len() > 0 {
        lemma_be_bound(bytes.drop_last());
    }
}

proof fn lemma_be_injective(a: Seq<u8>, b: Seq<u8>)
    requires
        a.len() == b.len(),
        be_value(a) == be_value(b),
    ensures
        a == b,
    decreases a.len(),
{
    if a.len() > 0 {
        assert(a.last() == b.last());
        assert(be_value(a.drop_last()) == be_value(b.drop_last()));
        lemma_be_injective(a.drop_last(), b.drop_last());
        assert(a =~= a.drop_last().push(a.last()));
        assert(b =~= b.drop_last().push(b.last()));
    } else {
        assert(a =~= b);
    }
}

proof fn lemma_byte_limits()
    ensures
        byte_limit(2) == 65536,
        byte_limit(14) == 0x1_0000_0000_0000_0000_0000_0000_0000int,
        byte_limit(16) == 0x1_0000_0000_0000_0000_0000_0000_0000_0000int,
{
    reveal_with_fuel(byte_limit, 17);
}

proof fn lemma_byte_limit_monotonic(a: nat, b: nat)
    requires
        a <= b,
    ensures
        byte_limit(a) <= byte_limit(b),
    decreases b,
{
    if a < b {
        lemma_byte_limit_monotonic(a, (b - 1) as nat);
    }
}

/// The value of a run of at most sixteen big-endian bytes.
fn be_u128(bytes: &[u8], from: usize, to: usize) -> (value: u128)
    requires
        from <= to <= bytes@.len(),
        to - from <= 16,
    ensures
        value as nat == be_value(bytes@.subrange(from as int, to as int)),
{
    let mut value: u128 = 0;
    let mut at: usize = from;
    while at < to
        invariant
            from <= at <= to <= bytes@.len(),
            to - from <= 16,
            value as nat == be_value(bytes@.subrange(from as int, at as int)),
        decreases to - at,
    {
        proof {
            let done = bytes@.subrange(from as int, at as int);
            let next = bytes@.subrange(from as int, at + 1);
            lemma_be_bound(done);
            lemma_byte_limits();
            lemma_byte_limit_monotonic(done.len() + 1, 16);
            assert(next.drop_last() =~= done);
            assert(next.last() == bytes@[at as int]);
        }
        value = value * 256 + bytes[at] as u128;
        at = at + 1;
    }
    value
}

/// The `len` big-endian bytes of `value`.
pub open spec fn be_bytes(value: nat, len: nat) -> Seq<u8>
    decreases len,
{
    if len == 0 {
        Seq::empty()
    } else {
        be_bytes(value / 256, (len - 1) as nat).push((value % 256) as u8)
    }
}

proof fn lemma_be_bytes(value: nat, len: nat)
    requires
        value < byte_limit(len),
    ensures
        be_bytes(value, len).len() == len,
        be_value(be_bytes(value, len)) == value,
    decreases len,
{
    if len > 0 {
        lemma_be_bytes(value / 256, (len - 1) as nat);
        let bytes = be_bytes(value, len);
        assert(bytes.drop_last() =~= be_bytes(value / 256, (len - 1) as nat));
    }
}

/// Appends the `len` big-endian bytes of `value`.
pub(crate) fn push_be(out: &mut Vec<u8>, value: u128, len: usize)
    ensures
        final(out)@ == old(out)@ + be_bytes(value as nat, len as nat),
    decreases len,
{
    if len > 0 {
        push_be(out, value / 256, len - 1);
        out.push((value % 256) as u8);
        proof {
            assert(be_bytes(value as nat, len as nat) =~= be_bytes(
                value as nat / 256,
                (len - 1) as nat,
            ).push((value as nat % 256) as u8));
        }
    }
    proof {
        assert(out@ =~= old(out)@ + be_bytes(value as nat, len as nat));
    }
}

// ---------------------------------------------------------------------------
// Packed indexes

/// Whether the bit at `position` of `byte` is set, counting from the least
/// significant.
pub open spec fn bit_set(byte: u8, position: int) -> bool {
    (byte >> (position as u8)) & 1u8 == 1u8
}

/// Whether the bit at `offset` of a bit column is set.
pub open spec fn column_bit(bytes: Seq<u8>, offset: int) -> bool {
    bit_set(bytes[offset / 8], offset % 8)
}

/// The number that `bits` bits from `offset` on spell, least significant first.
pub open spec fn packed_index(bytes: Seq<u8>, offset: int, bits: nat) -> nat
    decreases bits,
{
    if bits == 0 {
        0
    } else {
        (if column_bit(bytes, offset) {
            1nat
        } else {
            0nat
        }) + 2 * packed_index(bytes, offset + 1, (bits - 1) as nat)
    }
}

/// `number` without its lowest `bits` bits.
pub open spec fn halved(number: nat, bits: nat) -> nat
    decreases bits,
{
    if bits == 0 {
        number
    } else {
        halved(number, (bits - 1) as nat) / 2
    }
}

/// Whether the bit at `position` of `number` is set.
pub open spec fn number_bit(number: nat, position: nat) -> bool {
    halved(number, position) % 2 == 1
}

proof fn lemma_halved_shift(number: nat, bits: nat)
    ensures
        halved(number / 2, bits) == halved(number, bits + 1),
    decreases bits,
{
    reveal_with_fuel(halved, 2);
    if bits > 0 {
        lemma_halved_shift(number, (bits - 1) as nat);
    }
}

proof fn lemma_packed_index_bound(bytes: Seq<u8>, offset: int, bits: nat)
    ensures
        packed_index(bytes, offset, bits) < pow2(bits),
    decreases bits,
{
    lemma_pow2_pos(bits);
    if bits > 0 {
        lemma_packed_index_bound(bytes, offset + 1, (bits - 1) as nat);
        lemma_pow2_unfold(bits);
    }
}

/// Bits that agree with those of a number spell that number.
proof fn lemma_packed_index_of_bits(bytes: Seq<u8>, offset: int, bits: nat, number: nat)
    requires
        number < pow2(bits),
        forall|k: nat| k < bits ==> #[trigger] column_bit(bytes, offset + k) == number_bit(number, k),
    ensures
        packed_index(bytes, offset, bits) == number,
    decreases bits,
{
    if bits == 0 {
        lemma2_to64();
    } else {
        lemma_pow2_unfold(bits);
        assert forall|k: nat| k < bits - 1 implies #[trigger] column_bit(bytes, offset + 1 + k)
            == number_bit(number / 2, k) by {
            lemma_halved_shift(number, k);
            assert(column_bit(bytes, offset + (k + 1)) == number_bit(number, k + 1));
        }
        lemma_packed_index_of_bits(bytes, offset + 1, (bits - 1) as nat, number / 2);
        assert(column_bit(bytes, offset + 0nat) == number_bit(number, 0));
        assert(halved(number, 0) == number);
    }
}

proof fn lemma_packed_index_same_bits(a: Seq<u8>, b: Seq<u8>, offset: int, bits: nat)
    requires
        forall|at: int| offset <= at < offset + bits ==> #[trigger] column_bit(a, at) == column_bit(b, at),
    ensures
        packed_index(a, offset, bits) == packed_index(b, offset, bits),
    decreases bits,
{
    if bits > 0 {
        assert(column_bit(a, offset) == column_bit(b, offset));
        lemma_packed_index_same_bits(a, b, offset + 1, (bits - 1) as nat);
    }
}

proof fn lemma_or_bit(byte: u8, at: u8, other: u8)
    requires
        at < 8,
        other < 8,
    ensures
        ((byte | (1u8 << at)) >> other) & 1u8 == 1u8 <==> (other == at || (byte >> other) & 1u8 == 1u8),
{
    assert(((byte | (1u8 << at)) >> other) & 1u8 == 1u8 <==> (other == at || (byte >> other) & 1u8 == 1u8))
        by (bit_vector)
        requires
            at < 8,
            other < 8,
    ;
}

fn read_bit(bytes: &[u8], offset: usize) -> (set: bool)
    requires
        offset < 8 * bytes@.len(),
    ensures
        set == column_bit(bytes@, offset as int),
{
    (bytes[offset / 8] >> ((offset % 8) as u8)) & 1u8 == 1u8
}

/// The smallest width that tells `prefixes` table entries apart.
pub open spec fn required_bits(prefixes: nat) -> nat {
    if prefixes <= 1 {
        0
    } else {
        bit_length((prefixes - 1) as nat)
    }
}

/// The number of binary digits of `number`.
pub open spec fn bit_length(number: nat) -> nat
    decreases number,
{
    if number == 0 {
        0
    } else {
        1 + bit_length(number / 2)
    }
}

proof fn lemma_bit_length(number: nat)
    ensures
        number < pow2(bit_length(number)),
    decreases number,
{
    lemma2_to64();
    if number > 0 {
        lemma_bit_length(number / 2);
        lemma_pow2_unfold(bit_length(number));
    }
}

proof fn lemma_bit_length_monotonic(a: nat, b: nat)
    requires
        a <= b,
    ensures
        bit_length(a) <= bit_length(b),
    decreases b,
{
    if a > 0 {
        lemma_bit_length_monotonic(a / 2, b / 2);
    }
}

proof fn lemma_bit_length_pow2(bits: nat)
    ensures
        bit_length((pow2(bits) - 1) as nat) == bits,
    decreases bits,
{
    lemma_pow2_pos(bits);
    if bits > 0 {
        lemma_pow2_unfold(bits);
        lemma_pow2_pos((bits - 1) as nat);
        lemma_bit_length_pow2((bits - 1) as nat);
        assert(((pow2(bits) - 1) as nat) / 2 == (pow2((bits - 1) as nat) - 1) as nat);
    } else {
        lemma2_to64();
    }
}

proof fn lemma_bit_length_usize(number: usize)
    ensures
        bit_length(number as nat) <= usize::BITS,
{
    lemma2_to64();
    lemma2_to64_rest();
    lemma_bit_length_pow2(usize::BITS as nat);
    assert(usize::MAX as nat == (pow2(usize::BITS as nat) - 1) as nat) by {
        if usize::BITS == 32 {
            assert(usize::MAX == 0xffff_ffff);
        } else {
            assert(usize::MAX == 0xffff_ffff_ffff_ffff);
        }
    }
    lemma_bit_length_monotonic(number as nat, usize::MAX as nat);
}

fn required_index_bits(prefixes: usize) -> (bits: u8)
    ensures
        bits as nat == required_bits(prefixes as nat),
        bits as nat <= usize::BITS,
{
    if prefixes <= 1 {
        return 0;
    }
    let mut rest: usize = prefixes - 1;
    let mut bits: u8 = 0;
    proof {
        lemma_bit_length_usize(rest);
    }
    while rest > 0
        invariant
            bits as nat + bit_length(rest as nat) == bit_length((prefixes - 1) as nat),
            bit_length((prefixes - 1) as nat) <= usize::BITS,
            prefixes > 1,
        decreases rest,
    {
        rest = rest / 2;
        bits = bits + 1;
    }
    bits
}

/// The number of bytes that `count` indexes of `bits` bits take, where it is a
/// machine size.
pub open spec fn packed_size(count: nat, bits: nat) -> Option<nat> {
    if count * bits + 7 <= usize::MAX {
        Some(((count * bits + 7) / 8) as nat)
    } else {
        None
    }
}

fn packed_len(count: usize, bits: u8) -> (len: Result<usize, IdentityError>)
    ensures
        match packed_size(count as nat, bits as nat) {
            Some(size) => len matches Ok(found) && found == size,
            None => len == Err::<usize, IdentityError>(IdentityError::IndexLengthOverflow),
        },
{
    match count.checked_mul(bits as usize) {
        Some(total) => match total.checked_add(7) {
            Some(padded) => Ok(padded / 8),
            None => Err(IdentityError::IndexLengthOverflow),
        },
        None => Err(IdentityError::IndexLengthOverflow),
    }
}

/// Sets the bits of the index at `ordinal` to those of `index`, leaving every
/// bit that is already set.
pub fn pack_index(bytes: &mut Vec<u8>, ordinal: usize, bits: u8, index: usize)
    requires
        ordinal * bits + bits <= 8 * old(bytes)@.len(),
        ordinal * bits + bits <= usize::MAX,
    ensures
        packs(old(bytes)@, final(bytes)@, ordinal as nat, bits as nat, index as nat),
{
    let mut rest: usize = index;
    let mut bit: u8 = 0;
    proof {
        assert(ordinal * bits >= 0) by (nonlinear_arith);
    }
    let base: usize = ordinal * (bits as usize);
    while bit < bits
        invariant
            bit <= bits,
            base == ordinal * bits,
            base + bits <= 8 * old(bytes)@.len(),
            base + bits <= usize::MAX,
            bytes@.len() == old(bytes)@.len(),
            rest as nat == halved(index as nat, bit as nat),
            forall|at: int|
                0 <= at < 8 * old(bytes)@.len() ==> #[trigger] column_bit(bytes@, at) == (column_bit(
                    old(bytes)@,
                    at,
                ) || (base <= at < base + bit && number_bit(index as nat, (at - base) as nat))),
        decreases bits - bit,
    {
        let offset: usize = base + bit as usize;
        let ghost before = bytes@;
        if rest % 2 == 1 {
            let byte: u8 = bytes[offset / 8];
            let at: u8 = (offset % 8) as u8;
            bytes[offset / 8] = byte | (1u8 << at);
            proof {
                assert forall|o: int| 0 <= o < 8 * before.len() implies #[trigger] column_bit(bytes@, o) == (
                column_bit(before, o) || o == offset) by {
                    if o / 8 == offset / 8 {
                        let other = (o % 8) as u8;
                        lemma_or_bit(byte, at, other);
                        assert(o == offset <==> other == at);
                    }
                }
            }
        }
        proof {
            assert forall|o: int| 0 <= o < 8 * before.len() implies #[trigger] column_bit(bytes@, o) == (
            column_bit(old(bytes)@, o) || (base <= o < base + bit + 1 && number_bit(
                index as nat,
                (o - base) as nat,
            ))) by {
                assert(column_bit(before, o) == (column_bit(old(bytes)@, o) || (base <= o < base + bit
                    && number_bit(index as nat, (o - base) as nat))));
                if o == offset {
                    assert(number_bit(index as nat, bit as nat) == (rest % 2 == 1));
                }
            }
        }
        rest = rest / 2;
        bit = bit + 1;
    }
}

/// Reads the index at `ordinal`.
pub fn unpack_index(bytes: &[u8], ordinal: usize, bits: u8) -> (index: usize)
    requires
        ordinal * bits + bits <= 8 * bytes@.len(),
        ordinal * bits + bits <= usize::MAX,
        bits as nat <= usize::BITS,
    ensures
        index as nat == packed_index(bytes@, ordinal * bits, bits as nat),
{
    let mut index: usize = 0;
    let mut bit: u8 = bits;
    proof {
        assert(ordinal * bits >= 0) by (nonlinear_arith);
    }
    let base: usize = ordinal * (bits as usize);
    while bit > 0
        invariant
            bit <= bits,
            base == ordinal * bits,
            base + bits <= 8 * bytes@.len(),
            base + bits <= usize::MAX,
            bits as nat <= usize::BITS,
            index as nat == packed_index(bytes@, base + bit, (bits - bit) as nat),
        decreases bit,
    {
        bit = bit - 1;
        proof {
            lemma_packed_index_bound(bytes@, base + bit, (bits - bit) as nat);
            lemma2_to64();
            lemma2_to64_rest();
            if bits - bit < usize::BITS {
                lemma_pow2_strictly_increases((bits - bit) as nat, usize::BITS as nat);
            }
            assert(pow2(usize::BITS as nat) == usize::MAX + 1);
            assert(packed_index(bytes@, base + bit, (bits - bit) as nat) == (if column_bit(
                bytes@,
                base + bit,
            ) {
                1nat
            } else {
                0nat
            }) + 2 * packed_index(bytes@, base + bit + 1, (bits - bit - 1) as nat));
        }
        if read_bit(bytes, base + bit as usize) {
            index = 2 * index + 1;
        } else {
            index = 2 * index;
        }
    }
    index
}

/// What packing an index at an ordinal does to a column: the bits of the index are
/// set, and every bit that was set stays.
pub open spec fn packs(before: Seq<u8>, after: Seq<u8>, ordinal: nat, bits: nat, index: nat) -> bool {
    &&& after.len() == before.len()
    &&& forall|at: int|
        0 <= at < 8 * before.len() ==> #[trigger] column_bit(after, at) == (column_bit(before, at) || (ordinal * bits
            <= at < ordinal * bits + bits && number_bit(index, (at - ordinal * bits) as nat)))
}

/// An index that is packed into clear bits is read back, and the indexes at the other
/// ordinals stay what they were.
pub proof fn law_packed_indexes_are_read_back(
    before: Seq<u8>,
    after: Seq<u8>,
    ordinal: nat,
    other: nat,
    bits: nat,
    index: nat,
)
    requires
        packs(before, after, ordinal, bits, index),
        index < pow2(bits),
        ordinal != other,
        ordinal * bits + bits <= 8 * before.len(),
        other * bits + bits <= 8 * before.len(),
        forall|at: int|
            ordinal * bits <= at < ordinal * bits + bits ==> !#[trigger] column_bit(before, at),
    ensures
        packed_index(after, (ordinal * bits) as int, bits) == index,
        packed_index(after, (other * bits) as int, bits) == packed_index(before, (other * bits) as int, bits),
{
    let base = (ordinal * bits) as int;
    let beside = (other * bits) as int;
    assert(0 <= base && 0 <= beside) by (nonlinear_arith)
        requires
            base == ordinal * bits,
            beside == other * bits,
    ;
    assert forall|k: nat| k < bits implies #[trigger] column_bit(after, base + k) == number_bit(index, k) by {
        assert(!column_bit(before, base + k));
    }
    lemma_packed_index_of_bits(after, base, bits, index);
    assert(beside + bits <= base || base + bits <= beside) by (nonlinear_arith)
        requires
            base == ordinal * bits,
            beside == other * bits,
            ordinal != other,
    ;
    lemma_packed_index_same_bits(after, before, beside, bits);
}

// ---------------------------------------------------------------------------
// The column

/// Canonical columnar representation of the stable identity assigned to each
/// dense ordinal.
#[derive(Clone, Debug)]
pub struct IdentityColumn {
    pub prefixes: Vec<u8>,
    pub index_bits: u8,
    pub block_indexes: Vec<u8>,
    pub counters: Vec<u8>,
}

impl IdentityColumn {
    pub open spec fn prefix_count(self) -> nat {
        self.prefixes@.len() / 14
    }

    /// The table entry at `index`.
    pub open spec fn prefix(self, index: int) -> Seq<u8> {
        self.prefixes@.subrange(14 * index, 14 * index + 14)
    }

    /// The table index stored for `ordinal`.
    pub open spec fn index(self, ordinal: nat) -> nat {
        packed_index(self.block_indexes@, ordinal * self.index_bits, self.index_bits as nat)
    }

    /// The identity stored for `ordinal`.
    pub open spec fn identity(self, ordinal: nat) -> Seq<u8> {
        self.prefix(self.index(ordinal) as int) + self.counters@.subrange(
            2 * ordinal as int,
            2 * ordinal as int + 2,
        )
    }

    /// Table entries increase, read as big-endian numbers.
    pub open spec fn prefixes_increase(self) -> bool {
        forall|i: int, j: int|
            0 <= i < j < self.prefix_count() ==> be_value(#[trigger] self.prefix(i)) < be_value(
                #[trigger] self.prefix(j),
            )
    }

    /// Every bit past the last index is clear.
    pub open spec fn padding_clear(self, count: nat) -> bool {
        forall|at: int|
            count * self.index_bits <= at < 8 * self.block_indexes@.len() ==> !#[trigger] column_bit(
                self.block_indexes@,
                at,
            )
    }

    /// What is wrong with the lengths, the padding or the table of a column of
    /// `count` identities, before any identity is read.
    pub open spec fn layout_error(self, count: nat) -> Option<IdentityError> {
        if self.prefixes@.len() % 14 != 0 {
            Some(IdentityError::PrefixColumnLength)
        } else if self.prefix_count() == 0 && count != 0 {
            Some(IdentityError::NoPrefixes)
        } else if self.index_bits as nat != required_bits(self.prefix_count()) {
            Some(IdentityError::IndexWidth)
        } else if packed_size(count, self.index_bits as nat) is None {
            Some(IdentityError::IndexLengthOverflow)
        } else if packed_size(count, self.index_bits as nat) != Some(self.block_indexes@.len()) {
            Some(IdentityError::IndexColumnLength)
        } else if 2 * count > usize::MAX {
            Some(IdentityError::CounterLengthOverflow)
        } else if self.counters@.len() != 2 * count {
            Some(IdentityError::CounterColumnLength)
        } else if !self.padding_clear(count) {
            Some(IdentityError::IndexPadding)
        } else if !self.prefixes_increase() {
            Some(IdentityError::PrefixesNotCanonical)
        } else {
            None
        }
    }

    /// The first `count` identities, or the first thing wrong with them.
    pub open spec fn identities(self, count: nat) -> Result<Seq<Seq<u8>>, IdentityError>
        decreases count,
    {
        if count == 0 {
            Ok(Seq::empty())
        } else {
            let ordinal = (count - 1) as nat;
            match self.identities(ordinal) {
                Err(error) => Err(error),
                Ok(before) => if self.index(ordinal) >= self.prefix_count() {
                    Err(IdentityError::IndexOutsideTable)
                } else if be_value(self.identity(ordinal)) == 0 {
                    Err(IdentityError::ZeroIdentity)
                } else if before.contains(self.identity(ordinal)) {
                    Err(IdentityError::DuplicateIdentity)
                } else {
                    Ok(before.push(self.identity(ordinal)))
                },
            }
        }
    }

    /// The table entry belongs to no identity.
    pub open spec fn is_unused(self, entry: nat, count: nat) -> bool {
        forall|ordinal: nat| ordinal < count ==> #[trigger] self.index(ordinal) != entry
    }

    /// Some table entry belongs to no identity.
    pub open spec fn has_unused_prefix(self, count: nat) -> bool {
        exists|entry: nat| entry < self.prefix_count() && #[trigger] self.is_unused(entry, count)
    }

    /// What reading a column of `count` identities gives.
    pub open spec fn decoded(self, count: nat) -> Result<Seq<Seq<u8>>, IdentityError> {
        match self.layout_error(count) {
            Some(error) => Err(error),
            None => match self.identities(count) {
                Err(error) => Err(error),
                Ok(ids) => if self.has_unused_prefix(count) {
                    Err(IdentityError::UnusedPrefix)
                } else {
                    Ok(ids)
                },
            },
        }
    }
}

/// The bytes of each identity.
pub open spec fn id_bytes(ids: Seq<[u8; 16]>) -> Seq<Seq<u8>> {
    ids.map_values(|id: [u8; 16]| id@)
}

proof fn lemma_product_bound(ordinal: nat, count: nat, bits: nat)
    requires
        ordinal < count,
    ensures
        ordinal * bits + bits <= count * bits,
        0 <= ordinal * bits,
{
    assert(ordinal * bits + bits == (ordinal + 1) * bits) by (nonlinear_arith);
    assert((ordinal + 1) * bits <= count * bits) by (nonlinear_arith)
        requires
            ordinal + 1 <= count,
    ;
    assert(0 <= ordinal * bits) by (nonlinear_arith);
}

impl IdentityColumn {
    /// The prefix at `index` followed by the counter at `ordinal`.
    fn assemble(&self, index: usize, ordinal: usize) -> (id: [u8; 16])
        requires
            14 * index + 14 <= self.prefixes@.len(),
            2 * ordinal + 2 <= self.counters@.len(),
        ensures
            id@ == self.prefix(index as int) + self.counters@.subrange(
                2 * ordinal as int,
                2 * ordinal as int + 2,
            ),
    {
        let mut id: [u8; 16] = [0u8; 16];
        let mut at: usize = 0;
        let table: usize = self.prefixes.len();
        let counted: usize = self.counters.len();
        while at < 14
            invariant
                at <= 14,
                table == self.prefixes@.len(),
                14 * index + 14 <= self.prefixes@.len(),
                id@.len() == 16,
                forall|k: int| 0 <= k < at ==> id@[k] == self.prefixes@[14 * index + k],
            decreases 14 - at,
        {
            id[at] = self.prefixes[14 * index + at];
            at = at + 1;
        }
        id[14] = self.counters[2 * ordinal];
        id[15] = self.counters[2 * ordinal + 1];
        proof {
            assert(id@ =~= self.prefix(index as int) + self.counters@.subrange(
                2 * ordinal as int,
                2 * ordinal as int + 2,
            ));
        }
        id
    }

    /// Whether every bit past the last index is clear.
    fn is_padding_clear(&self, count: usize) -> (clear: bool)
        requires
            packed_size(count as nat, self.index_bits as nat) == Some(self.block_indexes@.len()),
        ensures
            clear == self.padding_clear(count as nat),
    {
        proof {
            assert(0 <= count * self.index_bits) by (nonlinear_arith);
        }
        let mut at: usize = count * (self.index_bits as usize);
        let ghost used = count * self.index_bits;
        let last: usize = self.block_indexes.len();
        while at / 8 < last
            invariant
                used == count * self.index_bits,
                0 <= used <= at,
                packed_size(count as nat, self.index_bits as nat) == Some(self.block_indexes@.len()),
                last == self.block_indexes@.len(),
                at <= 8 * last,
                used + 7 <= usize::MAX,
                forall|o: int| used <= o < at ==> !#[trigger] column_bit(self.block_indexes@, o),
            decreases 8 * last - at,
        {
            if read_bit(self.block_indexes.as_slice(), at) {
                return false;
            }
            at = at + 1;
        }
        true
    }

    /// Whether the table entries increase.
    fn do_prefixes_increase(&self) -> (increase: bool)
        requires
            self.prefixes@.len() % 14 == 0,
        ensures
            increase == self.prefixes_increase(),
    {
        let len: usize = self.prefixes.len();
        let total: usize = len / 14;
        if total == 0 {
            return true;
        }
        let mut previous: u128 = be_u128(self.prefixes.as_slice(), 0, 14);
        let mut at: usize = 1;
        while at < total
            invariant
                1 <= at <= total,
                total == self.prefix_count(),
                14 * total == len,
                len == self.prefixes@.len(),
                previous as nat == be_value(self.prefix(at - 1)),
                forall|i: int, j: int|
                    0 <= i < j < at ==> be_value(#[trigger] self.prefix(i)) < be_value(
                        #[trigger] self.prefix(j),
                    ),
            decreases total - at,
        {
            let current: u128 = be_u128(self.prefixes.as_slice(), 14 * at, 14 * at + 14);
            if !(previous < current) {
                assert(!(be_value(self.prefix(at - 1)) < be_value(self.prefix(at as int))));
                return false;
            }
            proof {
                assert forall|i: int, j: int| 0 <= i < j < at + 1 implies be_value(#[trigger] self.prefix(i))
                    < be_value(#[trigger] self.prefix(j)) by {
                    if j == at && i < at - 1 {
                        assert(be_value(self.prefix(i)) < be_value(self.prefix(at - 1)));
                    }
                }
            }
            previous = current;
            at = at + 1;
        }
        true
    }

    /// Reads the identities of a column of `count` ordinals.
    pub fn decode(&self, count: usize) -> (ids: Result<Vec<[u8; 16]>, IdentityError>)
        ensures
            match self.decoded(count as nat) {
                Ok(expected) => ids matches Ok(found) && id_bytes(found@) == expected,
                Err(error) => ids matches Err(found) && found == error,
            },
    {
        if self.prefixes.len() % PREFIX_BYTES != 0 {
            return Err(IdentityError::PrefixColumnLength);
        }
        let prefix_count: usize = self.prefixes.len() / PREFIX_BYTES;
        if prefix_count == 0 && count != 0 {
            return Err(IdentityError::NoPrefixes);
        }
        let width: u8 = required_index_bits(prefix_count);
        if self.index_bits != width {
            return Err(IdentityError::IndexWidth);
        }
        match packed_len(count, self.index_bits) {
            Err(error) => {
                return Err(error);
            },
            Ok(len) => {
                if self.block_indexes.len() != len {
                    return Err(IdentityError::IndexColumnLength);
                }
            },
        }
        match count.checked_mul(COUNTER_BYTES) {
            None => {
                return Err(IdentityError::CounterLengthOverflow);
            },
            Some(len) => {
                if self.counters.len() != len {
                    return Err(IdentityError::CounterColumnLength);
                }
            },
        }
        if !self.is_padding_clear(count) {
            return Err(IdentityError::IndexPadding);
        }
        if !self.do_prefixes_increase() {
            return Err(IdentityError::PrefixesNotCanonical);
        }
        let mut referenced: Vec<bool> = Vec::new();
        while referenced.len() < prefix_count
            invariant
                referenced@.len() <= prefix_count,
                forall|entry: int| 0 <= entry < referenced@.len() ==> !referenced@[entry],
            decreases prefix_count - referenced@.len(),
        {
            referenced.push(false);
        }
        let mut unique: HashSet<u128> = HashSet::new();
        let mut ids: Vec<[u8; 16]> = Vec::new();
        let mut ordinal: usize = 0;
        proof {
            assert(id_bytes(ids@) =~= Seq::empty());
        }
        while ordinal < count
            invariant
                ordinal <= count,
                self.layout_error(count as nat) is None,
                prefix_count == self.prefix_count(),
                14 * prefix_count == self.prefixes@.len(),
                self.counters@.len() == 2 * count,
                self.index_bits as nat <= usize::BITS,
                packed_size(count as nat, self.index_bits as nat) == Some(self.block_indexes@.len()),
                referenced@.len() == prefix_count,
                ids@.len() == ordinal,
                self.identities(ordinal as nat) == Ok::<Seq<Seq<u8>>, IdentityError>(id_bytes(ids@)),
                forall|value: u128| #[trigger]
                    unique@.contains(value) <==> exists|k: int|
                        0 <= k < ordinal && be_value(#[trigger] ids@[k]@) == value as nat,
                forall|entry: int|
                    0 <= entry < prefix_count ==> (#[trigger] referenced@[entry] <==> exists|k: nat|
                        k < ordinal && #[trigger] self.index(k) == entry),
            decreases count - ordinal,
        {
            proof {
                lemma_product_bound(ordinal as nat, count as nat, self.index_bits as nat);
            }
            let index: usize = unpack_index(self.block_indexes.as_slice(), ordinal, self.index_bits);
            proof {
                assert(index as nat == self.index(ordinal as nat));
                lemma_failed_read(*self, ordinal as nat, count as nat);
            }
            if index >= prefix_count {
                return Err(IdentityError::IndexOutsideTable);
            }
            let ghost before = referenced@;
            referenced[index] = true;
            let id: [u8; 16] = self.assemble(index, ordinal);
            let value: u128 = be_u128(id.as_slice(), 0, 16);
            proof {
                assert(id@.subrange(0, 16) =~= id@);
                assert(id@ == self.identity(ordinal as nat));
            }
            if value == 0 {
                return Err(IdentityError::ZeroIdentity);
            }
            let ghost seen = unique@;
            let fresh: bool = unique.insert(value);
            proof {
                assert(id_bytes(ids@).contains(id@) <==> !fresh) by {
                    if id_bytes(ids@).contains(id@) {
                        let k = choose|k: int| 0 <= k < ids@.len() && id_bytes(ids@)[k] == id@;
                        assert(be_value(ids@[k]@) == value as nat);
                        assert(seen.contains(value));
                    }
                    if seen.contains(value) {
                        let k = choose|k: int|
                            0 <= k < ordinal && be_value(#[trigger] ids@[k]@) == value as nat;
                        lemma_be_injective(ids@[k]@, id@);
                        assert(id_bytes(ids@)[k] == id@);
                    }
                }
            }
            if !fresh {
                return Err(IdentityError::DuplicateIdentity);
            }
            let ghost earlier = ids@;
            ids.push(id);
            proof {
                assert(id_bytes(ids@) =~= id_bytes(earlier).push(id@));
                assert forall|other: u128| #[trigger]
                    unique@.contains(other) <==> exists|k: int|
                        0 <= k < ordinal + 1 && be_value(#[trigger] ids@[k]@) == other as nat by {
                    if unique@.contains(other) {
                        if other == value {
                            assert(be_value(ids@[ordinal as int]@) == other as nat);
                        } else {
                            assert(seen.contains(other));
                            let k = choose|k: int|
                                0 <= k < ordinal && be_value(#[trigger] earlier[k]@) == other as nat;
                            assert(be_value(ids@[k]@) == other as nat);
                        }
                    }
                    if exists|k: int| 0 <= k < ordinal + 1 && be_value(#[trigger] ids@[k]@) == other as nat {
                        let k = choose|k: int|
                            0 <= k < ordinal + 1 && be_value(#[trigger] ids@[k]@) == other as nat;
                        if k < ordinal {
                            assert(be_value(earlier[k]@) == other as nat);
                            assert(seen.contains(other));
                        }
                    }
                }
                assert forall|entry: int| 0 <= entry < prefix_count implies (#[trigger] referenced@[entry]
                    <==> exists|k: nat| k < ordinal + 1 && #[trigger] self.index(k) == entry) by {
                    if referenced@[entry] {
                        if entry == index {
                            assert(self.index(ordinal as nat) == entry);
                        } else {
                            assert(before[entry]);
                        }
                    }
                    if exists|k: nat| k < ordinal + 1 && #[trigger] self.index(k) == entry {
                        let k = choose|k: nat| k < ordinal + 1 && #[trigger] self.index(k) == entry;
                        if k < ordinal {
                            assert(before[entry]);
                        }
                    }
                }
            }
            ordinal = ordinal + 1;
        }
        let mut entry: usize = 0;
        while entry < prefix_count
            invariant
                entry <= prefix_count,
                prefix_count == self.prefix_count(),
                referenced@.len() == prefix_count,
                self.layout_error(count as nat) is None,
                self.identities(count as nat) is Ok,
                forall|e: int|
                    0 <= e < prefix_count ==> (#[trigger] referenced@[e] <==> exists|k: nat|
                        k < count && #[trigger] self.index(k) == e),
                forall|e: int| 0 <= e < entry ==> #[trigger] referenced@[e],
            decreases prefix_count - entry,
        {
            if !referenced[entry] {
                assert(self.is_unused(entry as nat, count as nat));
                return Err(IdentityError::UnusedPrefix);
            }
            entry = entry + 1;
        }
        proof {
            if self.has_unused_prefix(count as nat) {
                let e = choose|e: nat|
                    e < self.prefix_count() && #[trigger] self.is_unused(e, count as nat);
                assert(referenced@[e as int]);
            }
        }
        Ok(ids)
    }

    /// The bytes that the column takes.
    pub fn encoded_len(&self) -> (len: usize)
        requires
            self.prefixes@.len() + self.block_indexes@.len() + self.counters@.len() <= usize::MAX,
        ensures
            len == self.prefixes@.len() + self.block_indexes@.len() + self.counters@.len(),
    {
        self.prefixes.len() + self.block_indexes.len() + self.counters.len()
    }
}

/// A failure at one ordinal is the result for every longer run.
proof fn lemma_failed_read(column: IdentityColumn, ordinal: nat, count: nat)
    requires
        ordinal < count,
    ensures
        column.identities(ordinal + 1) is Err ==> column.identities(count) == column.identities(ordinal + 1),
    decreases count,
{
    if count > ordinal + 1 {
        lemma_failed_read(column, ordinal, (count - 1) as nat);
    }
}

// ---------------------------------------------------------------------------
// Writing a column

/// The allocation prefix of an identity, as a number.
pub open spec fn prefix_of(id: Seq<u8>) -> nat {
    be_value(id.subrange(0, 14))
}

/// The allocation prefixes that occur among `ids`.
pub open spec fn prefix_set(ids: Seq<Seq<u8>>) -> Set<nat> {
    ids.map_values(|id: Seq<u8>| prefix_of(id)).to_set()
}

/// Why `ids` have no column.
pub open spec fn encode_error(ids: Seq<Seq<u8>>) -> Option<IdentityError> {
    if packed_size(ids.len(), required_bits(prefix_set(ids).len())) is None {
        Some(IdentityError::IndexLengthOverflow)
    } else if exists|k: int| 0 <= k < ids.len() && be_value(#[trigger] ids[k]) == 0 {
        Some(IdentityError::ZeroIdentity)
    } else if !ids.no_duplicates() {
        Some(IdentityError::DuplicateIdentity)
    } else {
        None
    }
}

spec fn increasing(numbers: Seq<u128>) -> bool {
    forall|i: int, j: int| 0 <= i < j < numbers.len() ==> numbers[i] < numbers[j]
}

/// The place of `number` in an increasing table.
fn find_place(table: &Vec<u128>, number: u128) -> (place: usize)
    requires
        increasing(table@),
    ensures
        place <= table@.len(),
        forall|i: int| 0 <= i < place ==> table@[i] < number,
        forall|i: int| place <= i < table@.len() ==> table@[i] >= number,
{
    let mut low: usize = 0;
    let mut high: usize = table.len();
    while low < high
        invariant
            low <= high <= table@.len(),
            increasing(table@),
            forall|i: int| 0 <= i < low ==> table@[i] < number,
            forall|i: int| high <= i < table@.len() ==> table@[i] >= number,
        decreases high - low,
    {
        let middle: usize = low + (high - low) / 2;
        if table[middle] < number {
            low = middle + 1;
        } else {
            high = middle;
        }
    }
    low
}

/// Adds `number` to an increasing table, unless it is there.
fn add_number(table: &mut Vec<u128>, number: u128)
    requires
        increasing(old(table)@),
    ensures
        increasing(final(table)@),
        forall|other: u128| #[trigger]
            final(table)@.contains(other) <==> old(table)@.contains(other) || other == number,
{
    let place: usize = find_place(table, number);
    if place < table.len() && table[place] == number {
        assert(table@[place as int] == number);
        return;
    }
    table.insert(place, number);
    proof {
        let before = old(table)@;
        assert forall|other: u128| #[trigger] table@.contains(other) <==> before.contains(other) || other
            == number by {
            if before.contains(other) {
                let i = before.index_of(other);
                if i < place {
                    assert(table@[i] == other);
                } else {
                    assert(table@[i + 1] == other);
                }
            }
            if table@.contains(other) {
                let i = table@.index_of(other);
                if i < place {
                    assert(before[i] == other);
                } else if i > place {
                    assert(before[i - 1] == other);
                }
            }
            assert(table@[place as int] == number);
        }
    }
}

/// The distinct prefixes of `ids`, in increasing order.
fn collect_prefixes(ids: &[[u8; 16]]) -> (table: Vec<u128>)
    ensures
        increasing(table@),
        forall|number: u128| #[trigger]
            table@.contains(number) <==> exists|k: int|
                0 <= k < ids@.len() && prefix_of(#[trigger] ids@[k]@) == number as nat,
        table@.len() == prefix_set(id_bytes(ids@)).len(),
{
    let mut table: Vec<u128> = Vec::new();
    let mut at: usize = 0;
    while at < ids.len()
        invariant
            at <= ids@.len(),
            increasing(table@),
            forall|number: u128| #[trigger]
                table@.contains(number) <==> exists|k: int|
                    0 <= k < at && prefix_of(#[trigger] ids@[k]@) == number as nat,
        decreases ids@.len() - at,
    {
        let number: u128 = be_u128(ids[at].as_slice(), 0, 14);
        let ghost before = table@;
        add_number(&mut table, number);
        proof {
            assert forall|other: u128| #[trigger] table@.contains(other) <==> exists|k: int|
                0 <= k < at + 1 && prefix_of(#[trigger] ids@[k]@) == other as nat by {
                if table@.contains(other) {
                    if other == number {
                        assert(prefix_of(ids@[at as int]@) == other as nat);
                    } else {
                        assert(before.contains(other));
                    }
                }
                if exists|k: int| 0 <= k < at + 1 && prefix_of(#[trigger] ids@[k]@) == other as nat {
                    let k = choose|k: int|
                        0 <= k < at + 1 && prefix_of(#[trigger] ids@[k]@) == other as nat;
                    if k < at {
                        assert(before.contains(other));
                    }
                }
            }
        }
        at = at + 1;
    }
    proof {
        let numbers = table@.map_values(|number: u128| number as nat);
        let wanted = prefix_set(id_bytes(ids@));
        let listed = id_bytes(ids@).map_values(|id: Seq<u8>| prefix_of(id));
        assert(numbers.no_duplicates());
        numbers.unique_seq_to_set();
        assert(numbers.to_set() =~= wanted) by {
            assert forall|number: nat| numbers.to_set().contains(number) <==> wanted.contains(number) by {
                if numbers.contains(number) {
                    let i = numbers.index_of(number);
                    assert(table@.contains(table@[i]));
                    let k = choose|k: int|
                        0 <= k < ids@.len() && prefix_of(#[trigger] ids@[k]@) == table@[i] as nat;
                    assert(listed[k] == number);
                }
                if listed.contains(number) {
                    let k = listed.index_of(number);
                    lemma_be_bound(ids@[k]@.subrange(0, 14));
                    lemma_byte_limits();
                    assert(prefix_of(ids@[k]@) == (number as u128) as nat);
                    assert(table@.contains(number as u128));
                    let i = table@.index_of(number as u128);
                    assert(numbers[i] == number);
                }
            }
        }
    }
    table
}

/// The table as bytes.
fn prefix_bytes(table: &Vec<u128>) -> (bytes: Vec<u8>)
    ensures
        bytes@.len() == 14 * table@.len(),
        forall|i: int|
            0 <= i < table@.len() ==> #[trigger] bytes@.subrange(14 * i, 14 * i + 14) == be_bytes(
                table@[i] as nat,
                14,
            ),
{
    let mut bytes: Vec<u8> = Vec::new();
    let mut at: usize = 0;
    while at < table.len()
        invariant
            at <= table@.len(),
            bytes@.len() == 14 * at,
            forall|i: int|
                0 <= i < at ==> #[trigger] bytes@.subrange(14 * i, 14 * i + 14) == be_bytes(
                    table@[i] as nat,
                    14,
                ),
        decreases table@.len() - at,
    {
        let ghost before = bytes@;
        push_be(&mut bytes, table[at], 14);
        proof {
            lemma_be_bytes_len(table@[at as int] as nat, 14);
            assert forall|i: int| 0 <= i < at + 1 implies #[trigger] bytes@.subrange(14 * i, 14 * i + 14)
                == be_bytes(table@[i] as nat, 14) by {
                if i < at {
                    assert(bytes@.subrange(14 * i, 14 * i + 14) =~= before.subrange(14 * i, 14 * i + 14));
                } else {
                    assert(bytes@.subrange(14 * i, 14 * i + 14) =~= be_bytes(table@[i] as nat, 14));
                }
            }
        }
        at = at + 1;
    }
    bytes
}

pub(crate) proof fn lemma_be_bytes_len(value: nat, len: nat)
    ensures
        be_bytes(value, len).len() == len,
    decreases len,
{
    if len > 0 {
        lemma_be_bytes_len(value / 256, (len - 1) as nat);
    }
}

/// A column that stores nonzero `ids` reads as `ids`, or reports a repetition.
proof fn lemma_stored_identities(column: IdentityColumn, ids: Seq<Seq<u8>>, count: nat)
    requires
        count <= ids.len(),
        forall|k: nat|
            k < count ==> #[trigger] column.index(k) < column.prefix_count() && column.identity(k)
                == ids[k as int] && be_value(ids[k as int]) != 0,
    ensures
        column.identities(count) == (if ids.take(count as int).no_duplicates() {
            Ok::<Seq<Seq<u8>>, IdentityError>(ids.take(count as int))
        } else {
            Err(IdentityError::DuplicateIdentity)
        }),
    decreases count,
{
    if count == 0 {
        assert(ids.take(0) =~= Seq::empty());
    } else {
        let ordinal = (count - 1) as nat;
        lemma_stored_identities(column, ids, ordinal);
        let before = ids.take(ordinal as int);
        let all = ids.take(count as int);
        assert(all =~= before.push(ids[ordinal as int]));
        assert(column.index(ordinal) < column.prefix_count());
        if before.no_duplicates() {
            if before.contains(ids[ordinal as int]) {
                let k = before.index_of(ids[ordinal as int]);
                assert(all[k] == all[ordinal as int]);
            } else {
                assert(all.no_duplicates());
            }
        } else {
            let (i, j) = choose|i: int, j: int|
                0 <= i < before.len() && 0 <= j < before.len() && i != j && before[i] == before[j];
            assert(all[i] == all[j]);
        }
    }
}

impl IdentityColumn {
    /// Writes the column of `ids`.
    pub fn encode(ids: &[[u8; 16]]) -> (column: Result<IdentityColumn, IdentityError>)
        ensures
            match encode_error(id_bytes(ids@)) {
                Some(error) => column matches Err(found) && found == error,
                None => column matches Ok(written) && written.decoded(ids@.len()) == Ok::<
                    Seq<Seq<u8>>,
                    IdentityError,
                >(id_bytes(ids@)),
            },
    {
        let count: usize = ids.len();
        let ordered: Vec<u128> = collect_prefixes(ids);
        let index_bits: u8 = required_index_bits(ordered.len());
        let size: usize = match packed_len(count, index_bits) {
            Ok(size) => size,
            Err(error) => {
                return Err(error);
            },
        };
        let mut block_indexes: Vec<u8> = Vec::new();
        while block_indexes.len() < size
            invariant
                block_indexes@.len() <= size,
                forall|i: int| 0 <= i < block_indexes@.len() ==> block_indexes@[i] == 0u8,
            decreases size - block_indexes@.len(),
        {
            block_indexes.push(0);
        }
        let mut counters: Vec<u8> = Vec::new();
        let ghost mut indexes: Seq<nat> = Seq::empty();
        let mut ordinal: usize = 0;
        proof {
            assert forall|at: int| 0 <= at < 8 * size implies !#[trigger] column_bit(block_indexes@, at) by {
                let position = (at % 8) as u8;
                assert((0u8 >> position) & 1u8 == 0u8) by (bit_vector);
            }
        }
        while ordinal < count
            invariant
                count == ids@.len(),
                ordinal <= count,
                increasing(ordered@),
                forall|number: u128| #[trigger]
                    ordered@.contains(number) <==> exists|k: int|
                        0 <= k < ids@.len() && prefix_of(#[trigger] ids@[k]@) == number as nat,
                ordered@.len() == prefix_set(id_bytes(ids@)).len(),
                index_bits as nat == required_bits(ordered@.len()),
                index_bits as nat <= usize::BITS,
                packed_size(count as nat, index_bits as nat) == Some(size as nat),
                block_indexes@.len() == size,
                counters@.len() == 2 * ordinal,
                indexes.len() == ordinal,
                forall|at: int|
                    ordinal * index_bits <= at < 8 * size ==> !#[trigger] column_bit(block_indexes@, at),
                forall|k: int|
                    0 <= k < ordinal ==> {
                        &&& #[trigger] indexes[k] < ordered@.len()
                        &&& ordered@[indexes[k] as int] as nat == prefix_of(ids@[k]@)
                        &&& packed_index(block_indexes@, k * index_bits, index_bits as nat) == indexes[k]
                    },
                forall|k: int|
                    0 <= k < ordinal ==> be_value(#[trigger] ids@[k]@) != 0 && counters@[2 * k] == ids@[k]@[14]
                        && counters@[2 * k + 1] == ids@[k]@[15],
            decreases count - ordinal,
        {
            let value: u128 = be_u128(ids[ordinal].as_slice(), 0, 16);
            proof {
                assert(ids@[ordinal as int]@.subrange(0, 16) =~= ids@[ordinal as int]@);
                assert(id_bytes(ids@)[ordinal as int] == ids@[ordinal as int]@);
            }
            if value == 0 {
                return Err(IdentityError::ZeroIdentity);
            }
            let prefix: u128 = be_u128(ids[ordinal].as_slice(), 0, 14);
            let index: usize = find_place(&ordered, prefix);
            proof {
                assert(prefix_of(ids@[ordinal as int]@) == prefix as nat);
                assert(ordered@.contains(prefix));
                let place = ordered@.index_of(prefix);
                assert(ordered@[place] == prefix);
                if index < place {
                    assert(ordered@[index as int] < ordered@[place]);
                }
                assert(index == place);
                lemma_product_bound(ordinal as nat, count as nat, index_bits as nat);
            }
            let ghost before = block_indexes@;
            pack_index(&mut block_indexes, ordinal, index_bits, index);
            counters.push(ids[ordinal][14]);
            counters.push(ids[ordinal][15]);
            proof {
                let base = ordinal * index_bits;
                let bits = index_bits as nat;
                assert(index < pow2(bits)) by {
                    if ordered@.len() <= 1 {
                        lemma2_to64();
                    } else {
                        lemma_bit_length((ordered@.len() - 1) as nat);
                    }
                }
                assert forall|k: nat| k < bits implies #[trigger] column_bit(block_indexes@, base + k)
                    == number_bit(index as nat, k) by {
                    assert(!column_bit(before, base + k));
                }
                lemma_packed_index_of_bits(block_indexes@, base, bits, index as nat);
                let grown = indexes.push(index as nat);
                assert forall|k: int| 0 <= k < ordinal + 1 implies {
                    &&& #[trigger] grown[k] < ordered@.len()
                    &&& ordered@[grown[k] as int] as nat == prefix_of(ids@[k]@)
                    &&& packed_index(block_indexes@, k * index_bits, index_bits as nat) == grown[k]
                } by {
                    if k < ordinal {
                        assert(grown[k] == indexes[k]);
                        lemma_product_bound(k as nat, ordinal as nat, bits);
                        assert forall|at: int| k * bits <= at < k * bits + bits implies #[trigger] column_bit(
                            before,
                            at,
                        ) == column_bit(block_indexes@, at) by {
                            assert(column_bit(block_indexes@, at) == (column_bit(before, at) || (base <= at
                                < base + bits && number_bit(index as nat, (at - base) as nat))));
                        }
                        lemma_packed_index_same_bits(before, block_indexes@, k * bits, bits);
                    }
                }
                indexes = grown;
                assert((ordinal + 1) * bits == base + bits) by (nonlinear_arith)
                    requires
                        base == ordinal * bits,
                ;
                assert forall|at: int| (ordinal + 1) * index_bits <= at < 8 * size implies !#[trigger] column_bit(
                    block_indexes@,
                    at,
                ) by {
                    assert(!column_bit(before, at));
                }
            }
            ordinal = ordinal + 1;
        }
        let prefixes: Vec<u8> = prefix_bytes(&ordered);
        let column: IdentityColumn = IdentityColumn { prefixes, index_bits, block_indexes, counters };
        let counted: usize = column.counters.len();
        proof {
            let all = id_bytes(ids@);
            lemma_byte_limits();
            assert(column.prefix_count() == ordered@.len());
            assert forall|i: int| 0 <= i < ordered@.len() implies be_value(#[trigger] column.prefix(i))
                == ordered@[i] as nat && ordered@[i] < byte_limit(14) by {
                assert(ordered@.contains(ordered@[i]));
                let k = choose|k: int|
                    0 <= k < ids@.len() && prefix_of(#[trigger] ids@[k]@) == ordered@[i] as nat;
                lemma_be_bound(ids@[k]@.subrange(0, 14));
                lemma_be_bytes(ordered@[i] as nat, 14);
            }
            assert(column.prefixes_increase());
            assert(column.layout_error(count as nat) is None) by {
                if count != 0 {
                    assert(prefix_of(ids@[0]@) < byte_limit(14)) by {
                        lemma_be_bound(ids@[0]@.subrange(0, 14));
                    }
                    assert(ordered@.contains(prefix_of(ids@[0]@) as u128));
                }
            }
            assert forall|k: nat| k < count implies #[trigger] column.index(k) < column.prefix_count()
                && column.identity(k) == all[k as int] && be_value(all[k as int]) != 0 by {
                let place = indexes[k as int] as int;
                assert(column.index(k) == indexes[k as int]);
                let id = ids@[k as int]@;
                assert(be_value(column.prefix(place)) == ordered@[place] as nat);
                lemma_be_injective(column.prefix(place), id.subrange(0, 14));
                assert(column.identity(k) =~= id);
            }
            lemma_stored_identities(column, all, count as nat);
            assert(all.take(count as int) =~= all);
            assert(!column.has_unused_prefix(count as nat)) by {
                if column.has_unused_prefix(count as nat) {
                    let entry = choose|entry: nat|
                        entry < column.prefix_count() && #[trigger] column.is_unused(entry, count as nat);
                    assert(ordered@.contains(ordered@[entry as int]));
                    let k = choose|k: int|
                        0 <= k < ids@.len() && prefix_of(#[trigger] ids@[k]@) == ordered@[entry as int] as nat;
                    assert(column.index(k as nat) == indexes[k]);
                    assert(ordered@[indexes[k] as int] == ordered@[entry as int]);
                }
            }
            assert forall|k: int| 0 <= k < all.len() implies be_value(#[trigger] all[k]) != 0 by {
                assert(be_value(ids@[k]@) != 0);
            }
        }
        match column.decode(count) {
            Ok(_) => Ok(column),
            Err(error) => Err(error),
        }
    }
}

// ---------------------------------------------------------------------------
// Issuing identities

/// Where fresh allocation prefixes come from.
pub enum PrefixSource {
    /// The operating system's random source.
    System,
    /// Given prefixes, in order.
    Listed { prefixes: Vec<[u8; 14]>, next: usize },
}

/// Allocates stable 128-bit identities from collision-resistant blocks.
///
/// A prefix is never resumed: construction and block exhaustion both draw a
/// fresh 112-bit prefix. The counter is exact within that prefix.
pub struct ManifestIdentityAllocator {
    source: PrefixSource,
    issued_prefixes: HashSet<u128>,
    current_prefix: Option<u128>,
    next_counter: u32,
}

/// Fourteen bytes from `getrandom::fill`, or nothing where the operating system
/// has no randomness to give. Nothing is claimed of the bytes.
#[verifier::external_body]
fn random_prefix() -> (prefix: Option<[u8; 14]>) {
    let mut prefix = [0u8; 14];
    match getrandom::fill(&mut prefix) {
        Ok(()) => Some(prefix),
        Err(_) => None,
    }
}

impl ManifestIdentityAllocator {
    /// The prefixes drawn so far.
    pub closed spec fn prefixes(self) -> Set<u128> {
        self.issued_prefixes@
    }

    /// The prefix of the current block.
    pub closed spec fn prefix(self) -> Option<u128> {
        self.current_prefix
    }

    /// The counter of the next identity in the current block.
    pub closed spec fn counter(self) -> nat {
        self.next_counter as nat
    }

    /// The listed prefixes that have not been drawn, where they are listed.
    pub closed spec fn pending(self) -> Option<Seq<u128>> {
        match self.source {
            PrefixSource::System => None,
            PrefixSource::Listed { prefixes, next } => Some(
                listed_numbers(prefixes@).skip(next as int),
            ),
        }
    }

    pub closed spec fn wf(self) -> bool {
        &&& self.next_counter <= 65536
        &&& forall|prefix: u128| #[trigger]
            self.issued_prefixes@.contains(prefix) ==> 0 < prefix < byte_limit(14)
        &&& self.next_counter < 65536 ==> self.current_prefix is Some
        &&& self.current_prefix matches Some(prefix) ==> self.issued_prefixes@.contains(prefix)
        &&& self.source matches PrefixSource::Listed { prefixes, next } ==> next <= prefixes@.len()
    }

    /// Whether `id` has been issued.
    pub open spec fn issued(self, id: u128) -> bool {
        &&& self.prefixes().contains((id / 65536) as u128)
        &&& self.prefix() == Some((id / 65536) as u128) ==> id % 65536 < self.counter()
    }

    /// Whether a drawn prefix opens a block.
    pub open spec fn acceptable(self, prefix: u128) -> bool {
        prefix != 0 && !self.prefixes().contains(prefix)
    }

    /// What drawing a new block does: the first acceptable prefix of a list is
    /// taken, any acceptable prefix of the random source is.
    pub open spec fn rotated(self, after: Self) -> bool {
        &&& after.prefix() matches Some(prefix) && {
            &&& self.acceptable(prefix)
            &&& after.prefixes() == self.prefixes().insert(prefix)
            &&& self.pending() matches Some(listed) ==> exists|k: int| #[trigger] self.takes(after, listed, k)
        }
        &&& self.pending() is None ==> after.pending() is None
    }

    /// The prefix at `k` is the first acceptable one.
    pub open spec fn takes(self, after: Self, listed: Seq<u128>, k: int) -> bool {
        &&& 0 <= k < listed.len()
        &&& after.prefix() == Some(listed[k])
        &&& after.pending() == Some(listed.skip(k + 1))
        &&& forall|earlier: int| 0 <= earlier < k ==> !self.acceptable(#[trigger] listed[earlier])
    }

    /// No block can be drawn.
    pub open spec fn drained(self, error: IdentityError) -> bool {
        match self.pending() {
            Some(listed) => error == IdentityError::PrefixesExhausted && forall|k: int|
                0 <= k < listed.len() ==> !self.acceptable(#[trigger] listed[k]),
            None => error == IdentityError::RandomnessUnavailable,
        }
    }

    /// The identities that come next, in order, before the random source is asked
    /// for a block.
    pub open spec fn at_hand(self) -> Seq<u128> {
        let open = match self.prefix() {
            Some(prefix) => block(prefix, self.counter()),
            None => Seq::empty(),
        };
        match self.pending() {
            Some(listed) => open + listed_blocks(self.prefixes(), listed),
            None => open,
        }
    }

    /// Why nothing can be issued where nothing is at hand.
    pub open spec fn shortage(self) -> IdentityError {
        match self.pending() {
            Some(_) => IdentityError::PrefixesExhausted,
            None => IdentityError::RandomnessUnavailable,
        }
    }

    /// What issuing an identity does: the next of the current block, or the first of a new
    /// one.
    pub open spec fn gives(self, after: Self, id: u128) -> bool {
        &&& id != 0
        &&& !self.issued(id)
        &&& forall|other: u128| #[trigger] after.issued(other) <==> self.issued(other) || other == id
        &&& if self.counter() < 65536 {
            &&& self.prefix() matches Some(prefix) && id == prefix * 65536 + self.counter()
            &&& after.prefix() == self.prefix()
            &&& after.prefixes() == self.prefixes()
            &&& after.pending() == self.pending()
            &&& after.counter() == self.counter() + 1
        } else {
            &&& self.rotated(after)
            &&& after.prefix() matches Some(prefix) && id == prefix * 65536
            &&& after.counter() == 1
        }
    }

    /// What issuing an identity does to those at hand: the first of them is
    /// issued. Where there is none, the random source decides, if it is the source.
    pub open spec fn issues(self, after: Self, outcome: Result<u128, IdentityError>) -> bool {
        &&& after.pending() is Some == self.pending() is Some
        &&& if self.at_hand().len() > 0 {
            outcome == Ok::<u128, IdentityError>(self.at_hand()[0]) && after.at_hand() == self.at_hand().skip(1)
        } else {
            match outcome {
                Ok(id) => self.pending() is None && id % 65536 == 0 && after.at_hand() == block(
                    (id / 65536) as u128,
                    1,
                ),
                Err(error) => error == self.shortage() && after.at_hand().len() == 0,
            }
        }
    }

    pub fn new() -> (allocator: Self)
        ensures
            allocator.wf(),
            allocator.prefixes() == Set::<u128>::empty(),
            allocator.prefix() is None,
            allocator.counter() == 65536,
            allocator.pending() is None,
    {
        Self::with_prefix_source(PrefixSource::System)
    }

    pub fn with_prefix_source(source: PrefixSource) -> (allocator: Self)
        requires
            source matches PrefixSource::Listed { prefixes, next } ==> next <= prefixes@.len(),
        ensures
            allocator.wf(),
            allocator.prefixes() == Set::<u128>::empty(),
            allocator.prefix() is None,
            allocator.counter() == 65536,
            match source {
                PrefixSource::System => allocator.pending() is None,
                PrefixSource::Listed { prefixes, next } => allocator.pending() == Some(
                    listed_numbers(prefixes@).skip(next as int),
                ),
            },
    {
        ManifestIdentityAllocator {
            source,
            issued_prefixes: HashSet::new(),
            current_prefix: None,
            next_counter: COUNTERS_PER_PREFIX,
        }
    }

    /// An allocator that draws the given prefixes in order.
    pub fn from_prefixes(prefixes: Vec<[u8; 14]>) -> (allocator: Self)
        ensures
            allocator.wf(),
            allocator.prefixes() == Set::<u128>::empty(),
            allocator.prefix() is None,
            allocator.counter() == 65536,
            allocator.pending() == Some(listed_numbers(prefixes@)),
    {
        let ghost listed = listed_numbers(prefixes@);
        let allocator = Self::with_prefix_source(PrefixSource::Listed { prefixes, next: 0 });
        proof {
            assert(listed.skip(0) =~= listed);
        }
        allocator
    }

    /// Opens the block of a drawn prefix, unless it is zero or was drawn before.
    pub fn offer(&mut self, prefix: [u8; 14]) -> (accepted: bool)
        requires
            old(self).wf(),
        ensures
            final(self).wf(),
            final(self).pending() == old(self).pending(),
            accepted == old(self).acceptable(be_value(prefix@) as u128),
            accepted ==> final(self).prefix() == Some(be_value(prefix@) as u128) && final(self).counter() == 0
                && final(self).prefixes() == old(self).prefixes().insert(be_value(prefix@) as u128),
            !accepted ==> final(self).prefix() == old(self).prefix() && final(self).counter() == old(self).counter() && final(self).prefixes() == old(self).prefixes(),
    {
        let number: u128 = be_u128(prefix.as_slice(), 0, 14);
        proof {
            assert(prefix@.subrange(0, 14) =~= prefix@);
            lemma_be_bound(prefix@);
            lemma_byte_limits();
        }
        if number == 0 {
            return false;
        }
        if !self.issued_prefixes.insert(number) {
            proof {
                assert(self.issued_prefixes@ =~= old(self).issued_prefixes@);
            }
            return false;
        }
        self.current_prefix = Some(number);
        self.next_counter = 0;
        true
    }

    /// The next drawn prefix.
    fn draw(&mut self) -> (drawn: Result<[u8; 14], IdentityError>)
        requires
            old(self).wf(),
        ensures
            final(self).wf(),
            final(self).prefixes() == old(self).prefixes(),
            final(self).prefix() == old(self).prefix(),
            final(self).counter() == old(self).counter(),
            match old(self).pending() {
                None => final(self).pending() is None && (drawn matches Err(error) ==> error
                    == IdentityError::RandomnessUnavailable),
                Some(listed) => if listed.len() == 0 {
                    drawn == Err::<[u8; 14], IdentityError>(IdentityError::PrefixesExhausted) && final(self).pending() == old(self).pending()
                } else {
                    drawn matches Ok(prefix) && be_value(prefix@) as u128 == listed[0] && final(self).pending() == Some(listed.skip(1))
                },
            },
    {
        match &mut self.source {
            PrefixSource::System => match random_prefix() {
                Some(prefix) => Ok(prefix),
                None => Err(IdentityError::RandomnessUnavailable),
            },
            PrefixSource::Listed { prefixes, next } => {
                if *next < prefixes.len() {
                    let prefix: [u8; 14] = prefixes[*next];
                    let ghost numbers = listed_numbers(prefixes@);
                    let ghost at = *next as int;
                    *next = *next + 1;
                    proof {
                        assert(numbers.skip(at)[0] == numbers[at]);
                        assert(numbers.skip(at).skip(1) =~= numbers.skip(at + 1));
                    }
                    Ok(prefix)
                } else {
                    Err(IdentityError::PrefixesExhausted)
                }
            },
        }
    }

    /// Draws prefixes until one opens a new block.
    fn rotate(&mut self) -> (rotated: Result<(), IdentityError>)
        requires
            old(self).wf(),
        ensures
            final(self).wf(),
            match rotated {
                Ok(_) => old(self).rotated(*final(self)) && final(self).counter() == 0,
                Err(error) => old(self).drained(error) && final(self).prefixes() == old(self).prefixes()
                    && final(self).prefix() == old(self).prefix() && final(self).counter() == old(self).counter()
                    && match old(self).pending() {
                    Some(_) => final(self).pending() == Some(Seq::<u128>::empty()),
                    None => final(self).pending() is None,
                },
            },
    {
        let mut draws: u64 = MAX_PREFIX_DRAWS;
        let ghost start = *self;
        let ghost mut skipped: int = 0;
        loop
            invariant
                self.wf(),
                start == *old(self),
                self.prefixes() == start.prefixes(),
                self.prefix() == start.prefix(),
                self.counter() == start.counter(),
                match start.pending() {
                    None => self.pending() is None,
                    Some(listed) => {
                        &&& 0 <= skipped <= listed.len()
                        &&& self.pending() == Some(listed.skip(skipped))
                        &&& forall|k: int| 0 <= k < skipped ==> !start.acceptable(#[trigger] listed[k])
                    },
                },
            decreases
                    (match self.pending() {
                        None => 0,
                        Some(listed) => listed.len(),
                    }),
                    draws,
        {
            let listed: bool = self.is_listed();
            if !listed {
                if draws == 0 {
                    return Err(IdentityError::RandomnessUnavailable);
                }
                draws = draws - 1;
            }
            match self.draw() {
                Err(error) => {
                    proof {
                        if let Some(all) = start.pending() {
                            assert(all.skip(skipped) =~= Seq::empty());
                        }
                    }
                    return Err(error);
                },
                Ok(prefix) => {
                    proof {
                        if let Some(all) = start.pending() {
                            assert(all.skip(skipped)[0] == all[skipped]);
                            assert(all.skip(skipped).skip(1) =~= all.skip(skipped + 1));
                        }
                    }
                    if self.offer(prefix) {
                        proof {
                            if let Some(all) = start.pending() {
                                assert(start.takes(*self, all, skipped));
                            }
                        }
                        return Ok(());
                    }
                    proof {
                        skipped = skipped + 1;
                    }
                },
            }
        }
    }

    fn is_listed(&self) -> (listed: bool)
        ensures
            listed == (self.pending() is Some),
    {
        match &self.source {
            PrefixSource::System => false,
            PrefixSource::Listed { .. } => true,
        }
    }

    /// Issues an identity that this allocator has not issued before.
    pub fn next(&mut self) -> (id: Result<u128, IdentityError>)
        requires
            old(self).wf(),
        ensures
            final(self).wf(),
            old(self).issues(*final(self), id),
            match id {
                Ok(id) => old(self).gives(*final(self), id),
                Err(error) => {
                    &&& old(self).counter() == 65536
                    &&& old(self).drained(error)
                    &&& forall|other: u128| #[trigger] final(self).issued(other) <==> old(self).issued(other)
                },
            },
    {
        if self.next_counter == COUNTERS_PER_PREFIX {
            match self.rotate() {
                Ok(_) => {},
                Err(error) => {
                    proof {
                        if let Some(listed) = old(self).pending() {
                            lemma_no_blocks(old(self).prefixes(), listed);
                        }
                    }
                    return Err(error);
                },
            }
        }
        let ghost drawn = *self;
        let prefix: u128 = match self.current_prefix {
            Some(prefix) => prefix,
            None => {
                proof {
                    assert(false);
                }
                0
            },
        };
        let counter: u32 = self.next_counter;
        proof {
            lemma_byte_limits();
            assert(prefix * 65536 + counter <= u128::MAX);
        }
        let id: u128 = prefix * 65536 + counter as u128;
        self.next_counter = counter + 1;
        proof {
            assert(id / 65536 == prefix);
            assert(id % 65536 == counter);
            if old(self).counter() == 65536 {
                if let Some(listed) = old(self).pending() {
                    let k = choose|k: int| #[trigger] old(self).takes(drawn, listed, k);
                    assert(old(self).takes(*self, listed, k));
                    lemma_next_block(old(self).prefixes(), listed, k);
                }
            }
            assert(block(prefix, counter as nat)[0] == id);
            assert(block(prefix, counter as nat).skip(1) =~= block(prefix, counter as nat + 1));
            if old(self).at_hand().len() > 0 {
                assert(old(self).at_hand()[0] == id);
                assert(self.at_hand() =~= old(self).at_hand().skip(1));
            } else {
                assert(self.at_hand() =~= block(prefix, 1));
            }
            assert forall|other: u128| #[trigger] self.issued(other) <==> old(self).issued(other) || other
                == id by {
                assert(other == (other / 65536) * 65536 + other % 65536);
                if (other / 65536) as u128 == prefix {
                    assert(other == id <==> other % 65536 == counter);
                }
            }
        }
        Ok(id)
    }
}

/// The given prefixes as numbers.
pub open spec fn listed_numbers(prefixes: Seq<[u8; 14]>) -> Seq<u128> {
    prefixes.map_values(|prefix: [u8; 14]| be_value(prefix@) as u128)
}

/// The identities of a block from a counter on, in order.
pub open spec fn block(prefix: u128, counter: nat) -> Seq<u128> {
    Seq::new((65536 - counter) as nat, |k: int| (prefix * 65536 + counter + k) as u128)
}

/// The identities of the blocks that listed prefixes open, in order. A prefix
/// that is zero or was drawn before opens none.
pub open spec fn listed_blocks(drawn: Set<u128>, listed: Seq<u128>) -> Seq<u128>
    decreases listed.len(),
{
    if listed.len() == 0 {
        Seq::empty()
    } else if listed[0] == 0 || drawn.contains(listed[0]) {
        listed_blocks(drawn, listed.skip(1))
    } else {
        block(listed[0], 0) + listed_blocks(drawn.insert(listed[0]), listed.skip(1))
    }
}

proof fn lemma_no_blocks(drawn: Set<u128>, listed: Seq<u128>)
    requires
        forall|k: int| 0 <= k < listed.len() ==> (#[trigger] listed[k]) == 0 || drawn.contains(listed[k]),
    ensures
        listed_blocks(drawn, listed).len() == 0,
    decreases listed.len(),
{
    if listed.len() > 0 {
        let rest = listed.skip(1);
        assert forall|k: int| 0 <= k < rest.len() implies (#[trigger] rest[k]) == 0 || drawn.contains(rest[k]) by {
            assert(rest[k] == listed[k + 1]);
        }
        lemma_no_blocks(drawn, rest);
        assert(listed[0] == 0 || drawn.contains(listed[0]));
    }
}

/// The first prefix that opens a block comes first.
proof fn lemma_next_block(drawn: Set<u128>, listed: Seq<u128>, at: int)
    requires
        0 <= at < listed.len(),
        listed[at] != 0 && !drawn.contains(listed[at]),
        forall|k: int| 0 <= k < at ==> (#[trigger] listed[k]) == 0 || drawn.contains(listed[k]),
    ensures
        listed_blocks(drawn, listed) == block(listed[at], 0) + listed_blocks(
            drawn.insert(listed[at]),
            listed.skip(at + 1),
        ),
    decreases at,
{
    if at > 0 {
        let rest = listed.skip(1);
        assert forall|k: int| 0 <= k < at - 1 implies (#[trigger] rest[k]) == 0 || drawn.contains(rest[k]) by {
            assert(rest[k] == listed[k + 1]);
        }
        lemma_next_block(drawn, rest, at - 1);
        assert(listed[0] == 0 || drawn.contains(listed[0]));
        assert(rest.skip(at) =~= listed.skip(at + 1));
    }
}

/// States of an allocator and the identities that it issues between them.
pub open spec fn issued_in_turn(states: Seq<ManifestIdentityAllocator>, ids: Seq<u128>) -> bool {
    &&& states.len() == ids.len() + 1
    &&& forall|k: int| #![trigger ids[k]] 0 <= k < ids.len() ==> states[k].gives(states[k + 1], ids[k])
}

/// The block of an identity.
pub open spec fn block_of(id: u128) -> u128 {
    (id / 65536) as u128
}

proof fn lemma_issued_so_far(states: Seq<ManifestIdentityAllocator>, ids: Seq<u128>, count: int)
    requires
        issued_in_turn(states, ids),
        states[0].counter() == 65536,
        0 <= count <= ids.len(),
    ensures
        states[count].counter() == (if count == 0 {
            65536
        } else {
            (count - 1) % 65536 + 1
        }),
        count > 0 ==> states[count].prefix() == Some(block_of(ids[count - 1])),
        forall|k: int| 0 <= k < count ==> states[count].issued(#[trigger] ids[k]),
        forall|k: int| 0 <= k < count ==> (#[trigger] ids[k]) != 0 && ids[k] % 65536 == k % 65536,
    decreases count,
{
    if count > 0 {
        let at = count - 1;
        lemma_issued_so_far(states, ids, at);
        assert(states[at].gives(states[at + 1], ids[at]));
        assert forall|k: int| 0 <= k < count implies states[count].issued(#[trigger] ids[k]) by {
            if k < at {
                assert(states[at].issued(ids[k]));
            }
        }
    }
}

proof fn lemma_blocks_in_turn(states: Seq<ManifestIdentityAllocator>, ids: Seq<u128>, i: int, j: int)
    requires
        issued_in_turn(states, ids),
        states[0].counter() == 65536,
        0 <= i < j < ids.len(),
    ensures
        block_of(ids[i]) == block_of(ids[j]) <==> i / 65536 == j / 65536,
    decreases j,
{
    lemma_issued_so_far(states, ids, j);
    assert(states[j].gives(states[j + 1], ids[j]));
    assert(states[j].issued(ids[i]));
    if j % 65536 != 0 {
        assert(block_of(ids[j]) == block_of(ids[j - 1]));
        if i < j - 1 {
            lemma_blocks_in_turn(states, ids, i, j - 1);
        }
    }
}

/// The identities that an allocator issues from its beginning on, one after the other,
/// are different and never zero. They come in blocks: the counter of each is its place in
/// its block, and identities of two blocks have different prefixes.
pub proof fn law_identities_come_in_blocks(states: Seq<ManifestIdentityAllocator>, ids: Seq<u128>)
    requires
        issued_in_turn(states, ids),
        states[0].counter() == 65536,
    ensures
        ids.no_duplicates(),
        forall|k: int| 0 <= k < ids.len() ==> (#[trigger] ids[k]) != 0 && ids[k] % 65536 == k % 65536,
        forall|i: int, j: int|
            0 <= i < ids.len() && 0 <= j < ids.len() ==> (block_of(#[trigger] ids[i]) == block_of(#[trigger] ids[j])
                <==> i / 65536 == j / 65536),
{
    lemma_issued_so_far(states, ids, ids.len() as int);
    assert forall|i: int, j: int| 0 <= i < ids.len() && 0 <= j < ids.len() && i < j implies ids[i] != ids[j] by {
        lemma_issued_so_far(states, ids, j);
        assert(states[j].issued(ids[i]));
        assert(states[j].gives(states[j + 1], ids[j]));
    }
    assert forall|i: int, j: int| 0 <= i < ids.len() && 0 <= j < ids.len() implies (block_of(#[trigger] ids[i])
        == block_of(#[trigger] ids[j]) <==> i / 65536 == j / 65536) by {
        if i < j {
            lemma_blocks_in_turn(states, ids, i, j);
        } else if j < i {
            lemma_blocks_in_turn(states, ids, j, i);
        }
    }
}

// ---------------------------------------------------------------------------
// One column for each list of identities

/// What a readable column stores for each ordinal.
proof fn lemma_decoded_identities(column: IdentityColumn, count: nat)
    requires
        column.identities(count) is Ok,
    ensures
        column.identities(count)->Ok_0.len() == count,
        forall|k: nat|
            k < count ==> #[trigger] column.index(k) < column.prefix_count() && column.identities(
                count,
            )->Ok_0[k as int] == column.identity(k),
    decreases count,
{
    if count > 0 {
        lemma_decoded_identities(column, (count - 1) as nat);
    }
}

/// Increasing tables with the same entries are the same.
proof fn lemma_increasing_tables(a: Seq<nat>, b: Seq<nat>)
    requires
        forall|i: int, j: int| 0 <= i < j < a.len() ==> a[i] < a[j],
        forall|i: int, j: int| 0 <= i < j < b.len() ==> b[i] < b[j],
        forall|number: nat| #[trigger] a.contains(number) <==> b.contains(number),
    ensures
        a == b,
    decreases a.len(),
{
    if a.len() == 0 {
        if b.len() > 0 {
            assert(b.contains(b[0]) && !a.contains(b[0]));
        }
        assert(a =~= b);
    } else {
        assert(a.contains(a.last()));
        assert(b.len() > 0);
        assert(b.contains(b.last()) && a.contains(b.last()));
        let i = b.index_of(a.last());
        let j = a.index_of(b.last());
        assert(b[i] == a.last());
        assert(a[j] == b.last());
        assert(a.last() == b.last());
        let shorter_a = a.drop_last();
        let shorter_b = b.drop_last();
        assert forall|number: nat| #[trigger] shorter_a.contains(number) <==> shorter_b.contains(number) by {
            if shorter_a.contains(number) {
                let k = shorter_a.index_of(number);
                assert(a[k] == number);
                assert(a.contains(number));
                let l = b.index_of(number);
                assert(b[l] == number);
                assert(l < b.len() - 1);
                assert(shorter_b[l] == number);
            }
            if shorter_b.contains(number) {
                let k = shorter_b.index_of(number);
                assert(b[k] == number);
                assert(b.contains(number) && a.contains(number));
                let l = a.index_of(number);
                assert(a[l] == number);
                assert(l < a.len() - 1);
                assert(shorter_a[l] == number);
            }
        }
        lemma_increasing_tables(shorter_a, shorter_b);
        assert(a =~= shorter_a.push(a.last()));
        assert(b =~= shorter_b.push(b.last()));
    }
}

proof fn lemma_same_byte(a: u8, b: u8)
    requires
        forall|position: int| 0 <= position < 8 ==> #[trigger] bit_set(a, position) == bit_set(b, position),
    ensures
        a == b,
{
    assert(bit_set(a, 0) == bit_set(b, 0));
    assert(bit_set(a, 1) == bit_set(b, 1));
    assert(bit_set(a, 2) == bit_set(b, 2));
    assert(bit_set(a, 3) == bit_set(b, 3));
    assert(bit_set(a, 4) == bit_set(b, 4));
    assert(bit_set(a, 5) == bit_set(b, 5));
    assert(bit_set(a, 6) == bit_set(b, 6));
    assert(bit_set(a, 7) == bit_set(b, 7));
    assert(a == b) by (bit_vector)
        requires
            ((a >> 0u8) & 1u8 == 1u8) == ((b >> 0u8) & 1u8 == 1u8),
            ((a >> 1u8) & 1u8 == 1u8) == ((b >> 1u8) & 1u8 == 1u8),
            ((a >> 2u8) & 1u8 == 1u8) == ((b >> 2u8) & 1u8 == 1u8),
            ((a >> 3u8) & 1u8 == 1u8) == ((b >> 3u8) & 1u8 == 1u8),
            ((a >> 4u8) & 1u8 == 1u8) == ((b >> 4u8) & 1u8 == 1u8),
            ((a >> 5u8) & 1u8 == 1u8) == ((b >> 5u8) & 1u8 == 1u8),
            ((a >> 6u8) & 1u8 == 1u8) == ((b >> 6u8) & 1u8 == 1u8),
            ((a >> 7u8) & 1u8 == 1u8) == ((b >> 7u8) & 1u8 == 1u8),
    ;
}

proof fn lemma_same_index_bits(a: Seq<u8>, b: Seq<u8>, offset: int, bits: nat, at: int)
    requires
        packed_index(a, offset, bits) == packed_index(b, offset, bits),
        offset <= at < offset + bits,
    ensures
        column_bit(a, at) == column_bit(b, at),
    decreases bits,
{
    let rest_a = packed_index(a, offset + 1, (bits - 1) as nat);
    let rest_b = packed_index(b, offset + 1, (bits - 1) as nat);
    assert(column_bit(a, offset) == column_bit(b, offset));
    assert(rest_a == rest_b);
    if at > offset {
        lemma_same_index_bits(a, b, offset + 1, (bits - 1) as nat, at);
    }
}

spec fn table_numbers(column: IdentityColumn) -> Seq<nat> {
    Seq::new(column.prefix_count(), |i: int| be_value(column.prefix(i)))
}

/// The table of a readable column holds exactly the prefixes of its identities.
proof fn lemma_table_entries(column: IdentityColumn, count: nat, number: nat)
    requires
        column.decoded(count) is Ok,
    ensures
        table_numbers(column).contains(number) <==> exists|k: int|
            0 <= k < count && prefix_of(#[trigger] column.decoded(count)->Ok_0[k]) == number,
{
    let ids = column.decoded(count)->Ok_0;
    lemma_decoded_identities(column, count);
    let table = table_numbers(column);
    if table.contains(number) {
        let entry = table.index_of(number);
        assert(!column.is_unused(entry as nat, count));
        let k = choose|k: nat| k < count && #[trigger] column.index(k) == entry;
        assert(column.identity(k).subrange(0, 14) =~= column.prefix(entry));
        assert(prefix_of(ids[k as int]) == number);
    }
    if exists|k: int| 0 <= k < count && prefix_of(#[trigger] ids[k]) == number {
        let k = choose|k: int| 0 <= k < count && prefix_of(#[trigger] ids[k]) == number;
        let entry = column.index(k as nat) as int;
        assert(column.identity(k as nat).subrange(0, 14) =~= column.prefix(entry));
        assert(table[entry] == number);
    }
}

/// The column of a list of identities is canonical: two columns that read as
/// the same identities are the same, byte for byte.
#[verifier::rlimit(40)]
pub proof fn law_columns_are_canonical(a: IdentityColumn, b: IdentityColumn, count: nat)
    requires
        a.decoded(count) is Ok,
        a.decoded(count) == b.decoded(count),
    ensures
        a.prefixes@ == b.prefixes@,
        a.index_bits == b.index_bits,
        a.block_indexes@ == b.block_indexes@,
        a.counters@ == b.counters@,
{
    let ids = a.decoded(count)->Ok_0;
    lemma_decoded_identities(a, count);
    lemma_decoded_identities(b, count);
    let table_a = table_numbers(a);
    let table_b = table_numbers(b);
    assert forall|number: nat| #[trigger] table_a.contains(number) <==> table_b.contains(number) by {
        lemma_table_entries(a, count, number);
        lemma_table_entries(b, count, number);
    }
    lemma_increasing_tables(table_a, table_b);
    assert(table_a.len() == a.prefix_count() && table_b.len() == b.prefix_count());
    assert forall|i: int| 0 <= i < a.prefix_count() implies #[trigger] a.prefix(i) == b.prefix(i) by {
        assert(table_a[i] == table_b[i]);
        lemma_be_injective(a.prefix(i), b.prefix(i));
    }
    assert(a.prefixes@.len() == b.prefixes@.len());
    assert forall|i: int| 0 <= i < a.prefixes@.len() implies a.prefixes@[i] == b.prefixes@[i] by {
        assert(a.prefix(i / 14) == b.prefix(i / 14));
        assert(a.prefixes@[i] == a.prefix(i / 14)[i % 14]);
        assert(b.prefixes@[i] == b.prefix(i / 14)[i % 14]);
    }
    assert(a.prefixes@ =~= b.prefixes@);
    let bits = a.index_bits as nat;
    assert forall|k: nat| k < count implies #[trigger] a.index(k) == b.index(k) by {
        let i = a.index(k) as int;
        let j = b.index(k) as int;
        assert(ids[k as int].subrange(0, 14) =~= a.prefix(i));
        assert(ids[k as int].subrange(0, 14) =~= b.prefix(j));
        assert(table_a[i] == table_a[j]);
    }
    assert forall|at: int| 0 <= at < 8 * a.block_indexes@.len() implies #[trigger] column_bit(
        a.block_indexes@,
        at,
    ) == column_bit(b.block_indexes@, at) by {
        if at < count * bits {
            let k = (at / (bits as int)) as nat;
            assert(k < count && k * bits <= at < k * bits + bits) by (nonlinear_arith)
                requires
                    0 <= at < count * bits,
                    k == at / (bits as int),
            ;
            assert(a.index(k) == b.index(k));
            lemma_same_index_bits(a.block_indexes@, b.block_indexes@, (k * bits) as int, bits, at);
        }
    }
    assert forall|i: int| 0 <= i < a.block_indexes@.len() implies a.block_indexes@[i]
        == b.block_indexes@[i] by {
        assert forall|position: int| 0 <= position < 8 implies #[trigger] bit_set(
            a.block_indexes@[i],
            position,
        ) == bit_set(b.block_indexes@[i], position) by {
            assert(column_bit(a.block_indexes@, 8 * i + position) == column_bit(
                b.block_indexes@,
                8 * i + position,
            ));
        }
        lemma_same_byte(a.block_indexes@[i], b.block_indexes@[i]);
    }
    assert(a.block_indexes@ =~= b.block_indexes@);
    assert forall|i: int| 0 <= i < a.counters@.len() implies a.counters@[i] == b.counters@[i] by {
        let k = (i / 2) as nat;
        assert(a.index(k) == b.index(k));
        assert(a.counters@[i] == a.identity(k)[14 + i % 2]);
        assert(b.counters@[i] == b.identity(k)[14 + i % 2]);
    }
    assert(a.counters@ =~= b.counters@);
}

proof fn lemma_read_identities(column: IdentityColumn, count: nat)
    requires
        column.identities(count) is Ok,
    ensures
        column.identities(count)->Ok_0.no_duplicates(),
        forall|k: int|
            0 <= k < column.identities(count)->Ok_0.len() ==> be_value(
                #[trigger] column.identities(count)->Ok_0[k],
            ) != 0,
    decreases count,
{
    if count > 0 {
        lemma_read_identities(column, (count - 1) as nat);
        let before = column.identities((count - 1) as nat)->Ok_0;
        let all = column.identities(count)->Ok_0;
        assert forall|i: int, j: int| 0 <= i < all.len() && 0 <= j < all.len() && i != j implies all[i] != all[j] by {
            if i == before.len() {
                assert(before[j] == all[j]);
            } else if j == before.len() {
                assert(before[i] == all[i]);
            }
        }
    }
}

/// Reading a column and writing what was read gives the same column, byte for byte: what
/// was read can be written, and a column that reads as it, as the written one does, is
/// this one.
pub proof fn law_read_columns_are_written_the_same(column: IdentityColumn, written: IdentityColumn, count: nat)
    requires
        column.decoded(count) is Ok,
    ensures
        column.decoded(count)->Ok_0.len() == count,
        column.decoded(count)->Ok_0.no_duplicates(),
        forall|k: int| 0 <= k < count ==> be_value(#[trigger] column.decoded(count)->Ok_0[k]) != 0,
        encode_error(column.decoded(count)->Ok_0) is None,
        written.decoded(count) == column.decoded(count) ==> {
            &&& written.prefixes@ == column.prefixes@
            &&& written.index_bits == column.index_bits
            &&& written.block_indexes@ == column.block_indexes@
            &&& written.counters@ == column.counters@
        },
{
    let ids = column.decoded(count)->Ok_0;
    lemma_decoded_identities(column, count);
    lemma_read_identities(column, count);
    if written.decoded(count) == column.decoded(count) {
        law_columns_are_canonical(written, column, count);
    }
    let table = table_numbers(column);
    let prefixes = ids.map_values(|id: Seq<u8>| prefix_of(id));
    assert forall|number: nat| #[trigger] table.to_set().contains(number) <==> prefix_set(ids).contains(number) by {
        lemma_table_entries(column, count, number);
        if prefixes.contains(number) {
            let k = prefixes.index_of(number);
            assert(prefix_of(ids[k]) == number);
        }
        if exists|k: int| 0 <= k < count && prefix_of(#[trigger] ids[k]) == number {
            let k = choose|k: int| 0 <= k < count && prefix_of(#[trigger] ids[k]) == number;
            assert(prefixes[k] == number);
        }
    }
    assert(table.to_set() =~= prefix_set(ids));
    table.unique_seq_to_set();
}

} // verus!
