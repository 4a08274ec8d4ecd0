//! What a build is known by tells builds apart.

use crate::boundary_laws::{lemma_le, lemma_text};
use crate::build_cache::{
    cache_key_bytes, common_fields, exclusion_fields, key_field, layer_key_bytes, BuildFacts,
};
use crate::managed_hierarchy::le_bytes;
use crate::text::{hex, law_written_identities_keep_their_order, ref_chars, text_bytes};
use crate::Ref;
use vstd::prelude::*;

verus! {

/// A length that 64 bits can hold.
pub open spec fn is_countable(len: nat) -> bool {
    len < 0x1_0000_0000_0000_0000
}

proof fn lemma_same_texts(left: Seq<char>, right: Seq<char>)
    requires
        text_bytes(left) == text_bytes(right),
    ensures
        left == right,
{
    lemma_text(left);
    lemma_text(right);
}

/// A field is told from what follows it.
proof fn lemma_field(
    name: Seq<char>,
    left: Seq<u8>,
    right: Seq<u8>,
    left_rest: Seq<u8>,
    right_rest: Seq<u8>,
)
    requires
        key_field(name, left) + left_rest == key_field(name, right) + right_rest,
        is_countable(left.len()),
        is_countable(right.len()),
    ensures
        left == right,
        left_rest == right_rest,
{
    vstd::arithmetic::power2::lemma2_to64();
    let head = le_bytes(text_bytes(name).len(), 8) + text_bytes(name);
    let a = key_field(name, left) + left_rest;
    let b = key_field(name, right) + right_rest;
    let h = head.len() as int;
    lemma_le(left.len(), 8);
    lemma_le(right.len(), 8);
    assert(a.subrange(h, h + 8) =~= le_bytes(left.len(), 8));
    assert(b.subrange(h, h + 8) =~= le_bytes(right.len(), 8));
    assert(left.len() == right.len());
    assert(a.subrange(h + 8, h + 8 + left.len()) =~= left);
    assert(b.subrange(h + 8, h + 8 + left.len()) =~= right);
    assert(a.skip(h + 8 + left.len()) =~= left_rest);
    assert(b.skip(h + 8 + left.len()) =~= right_rest);
}

proof fn lemma_grouped(
    head: Seq<u8>,
    first: Seq<u8>,
    second: Seq<u8>,
    third: Seq<u8>,
    fourth: Seq<u8>,
    rest: Seq<u8>,
)
    ensures
        head + first + second + third + fourth + rest == head + (first + (second + (third + (fourth + rest)))),
{
    assert(head + first + second + third + fourth + rest =~= head + (first + (second + (third + (fourth + rest)))));
}

proof fn lemma_paired(first: Seq<u8>, second: Seq<u8>, rest: Seq<u8>)
    ensures
        first + second + rest == first + (second + rest),
{
    assert(first + second + rest =~= first + (second + rest));
}

proof fn lemma_same_head(head: Seq<u8>, left: Seq<u8>, right: Seq<u8>)
    requires
        head + left == head + right,
    ensures
        left == right,
{
    assert((head + left).skip(head.len() as int) =~= left);
    assert((head + right).skip(head.len() as int) =~= right);
}

/// The facts of a build are countable texts.
pub open spec fn countable_facts(facts: BuildFacts) -> bool {
    &&& is_countable(text_bytes(facts.os@).len())
    &&& is_countable(text_bytes(facts.arch@).len())
    &&& is_countable(text_bytes(facts.studio@).len())
    &&& is_countable(text_bytes(facts.project_name@).len())
}

proof fn lemma_common(domain: Seq<char>, left: BuildFacts, right: BuildFacts, left_rest: Seq<u8>, right_rest: Seq<u8>)
    requires
        countable_facts(left),
        countable_facts(right),
        common_fields(domain, left) + left_rest == common_fields(domain, right) + right_rest,
    ensures
        left.os@ == right.os@,
        left.arch@ == right.arch@,
        left.studio@ == right.studio@,
        left.project_name@ == right.project_name@,
        left_rest == right_rest,
{
    let head = text_bytes(domain).push(0u8) + key_field("schema"@, le_bytes(4, 4));
    let (a1, a2, a3, a4) = (
        text_bytes(left.os@),
        text_bytes(left.arch@),
        text_bytes(left.studio@),
        text_bytes(left.project_name@),
    );
    let (b1, b2, b3, b4) = (
        text_bytes(right.os@),
        text_bytes(right.arch@),
        text_bytes(right.studio@),
        text_bytes(right.project_name@),
    );
    let left4 = key_field("projectName"@, a4) + left_rest;
    let left3 = key_field("studio"@, a3) + left4;
    let left2 = key_field("arch"@, a2) + left3;
    let left1 = key_field("os"@, a1) + left2;
    let right4 = key_field("projectName"@, b4) + right_rest;
    let right3 = key_field("studio"@, b3) + right4;
    let right2 = key_field("arch"@, b2) + right3;
    let right1 = key_field("os"@, b1) + right2;
    lemma_grouped(
        head,
        key_field("os"@, a1),
        key_field("arch"@, a2),
        key_field("studio"@, a3),
        key_field("projectName"@, a4),
        left_rest,
    );
    lemma_grouped(
        head,
        key_field("os"@, b1),
        key_field("arch"@, b2),
        key_field("studio"@, b3),
        key_field("projectName"@, b4),
        right_rest,
    );
    lemma_same_head(head, left1, right1);
    lemma_field("os"@, a1, b1, left2, right2);
    lemma_field("arch"@, a2, b2, left3, right3);
    lemma_field("studio"@, a3, b3, left4, right4);
    lemma_field("projectName"@, a4, b4, left_rest, right_rest);
    lemma_same_texts(left.os@, right.os@);
    lemma_same_texts(left.arch@, right.arch@);
    lemma_same_texts(left.studio@, right.studio@);
    lemma_same_texts(left.project_name@, right.project_name@);
}

proof fn lemma_hex_len(value: nat, len: nat)
    ensures
        hex(value, len).len() == len,
        vstd::utf8::is_ascii_chars(hex(value, len)),
    decreases len,
{
    if len > 0 {
        lemma_hex_len(value / 16, (len - 1) as nat);
    }
}

proof fn lemma_written_len(id: Ref)
    ensures
        text_bytes(ref_chars(id)).len() == 32,
{
    lemma_hex_len(id as nat, 32);
    vstd::utf8::is_ascii_chars_encode_utf8(ref_chars(id));
}

proof fn lemma_exclusions(left: Seq<Ref>, right: Seq<Ref>)
    requires
        exclusion_fields(left) == exclusion_fields(right),
    ensures
        left == right,
    decreases left.len(),
{
    vstd::arithmetic::power2::lemma2_to64();
    lemma_le(32, 8);
    if left.len() > 0 {
        lemma_written_len(left.last());
    }
    if right.len() > 0 {
        lemma_written_len(right.last());
    }
    if left.len() == 0 || right.len() == 0 {
        assert(left =~= right);
    } else {
        let name = "identityExclusion"@;
        let a = key_field(name, text_bytes(ref_chars(left.last())));
        let b = key_field(name, text_bytes(ref_chars(right.last())));
        let all = exclusion_fields(left);
        let other = exclusion_fields(right);
        let before = exclusion_fields(left.drop_last());
        let other_before = exclusion_fields(right.drop_last());
        assert(all == before + a);
        assert(other == other_before + b);
        assert(a.len() == b.len());
        assert(before.len() == other_before.len());
        assert(all.take(before.len() as int) =~= before);
        assert(other.take(before.len() as int) =~= other_before);
        assert(all.skip(before.len() as int) =~= a);
        assert(other.skip(before.len() as int) =~= b);
        assert(a + Seq::<u8>::empty() =~= b + Seq::<u8>::empty());
        lemma_field(
            name,
            text_bytes(ref_chars(left.last())),
            text_bytes(ref_chars(right.last())),
            Seq::empty(),
            Seq::empty(),
        );
        lemma_same_texts(ref_chars(left.last()), ref_chars(right.last()));
        law_written_identities_keep_their_order(left.last(), right.last());
        lemma_exclusions(left.drop_last(), right.drop_last());
        assert(left.drop_last().push(left.last()) =~= left);
        assert(right.drop_last().push(right.last()) =~= right);
    }
}

proof fn lemma_key_parts(
    facts: BuildFacts,
    mapped: Option<Seq<char>>,
    exclusions: Option<Seq<Ref>>,
    generation: Seq<char>,
    mode: Seq<char>,
    rest: Seq<u8>,
)
    requires
        generation == (if mapped is Some {
            mapped->0
        } else {
            "direct"@
        }),
        exclusions matches Some(list) ==> mode == "managed"@ && rest == exclusion_fields(list),
        exclusions is None ==> mode == "unmanaged"@ && rest == Seq::<u8>::empty(),
    ensures
        cache_key_bytes(facts, mapped, exclusions) == common_fields("carbon-build-cache-v1"@, facts) + (key_field(
            "mappedSource"@,
            text_bytes(generation),
        ) + (key_field("mode"@, text_bytes(mode)) + rest)),
{
    let head = common_fields("carbon-build-cache-v1"@, facts);
    let source = key_field("mappedSource"@, text_bytes(generation));
    let kind = key_field("mode"@, text_bytes(mode));
    lemma_paired(head, source, kind + rest);
    assert(kind + Seq::<u8>::empty() =~= kind);
}

/// Whatever a build depends on is in what it is known by: two builds that are known by the
/// same have the same machine, the same place, the same project, the same mapped source and
/// leave out the same identities. Source of the generation `direct` is known as no source.
pub proof fn law_known_builds_have_the_same_inputs(
    left: BuildFacts,
    right: BuildFacts,
    mapped: Option<Seq<char>>,
    other_mapped: Option<Seq<char>>,
    exclusions: Option<Seq<Ref>>,
    other_exclusions: Option<Seq<Ref>>,
)
    requires
        countable_facts(left),
        countable_facts(right),
        mapped matches Some(generation) ==> generation != "direct"@ && is_countable(text_bytes(generation).len()),
        other_mapped matches Some(generation) ==> generation != "direct"@ && is_countable(
            text_bytes(generation).len(),
        ),
        cache_key_bytes(left, mapped, exclusions) == cache_key_bytes(right, other_mapped, other_exclusions),
    ensures
        left.os@ == right.os@,
        left.arch@ == right.arch@,
        left.studio@ == right.studio@,
        left.project_name@ == right.project_name@,
        mapped == other_mapped,
        exclusions == other_exclusions,
{
    let domain = "carbon-build-cache-v1"@;
    let a = if mapped is Some {
        mapped->0
    } else {
        "direct"@
    };
    let b = if other_mapped is Some {
        other_mapped->0
    } else {
        "direct"@
    };
    let (mode_a, rest_a) = lemma_mode(exclusions);
    let (mode_b, rest_b) = lemma_mode(other_exclusions);
    let tail_a = key_field("mode"@, text_bytes(mode_a)) + rest_a;
    let tail_b = key_field("mode"@, text_bytes(mode_b)) + rest_b;
    let after_a = key_field("mappedSource"@, text_bytes(a)) + tail_a;
    let after_b = key_field("mappedSource"@, text_bytes(b)) + tail_b;
    lemma_key_parts(left, mapped, exclusions, a, mode_a, rest_a);
    lemma_key_parts(right, other_mapped, other_exclusions, b, mode_b, rest_b);
    lemma_common(domain, left, right, after_a, after_b);
    lemma_words();
    lemma_field("mappedSource"@, text_bytes(a), text_bytes(b), tail_a, tail_b);
    lemma_same_texts(a, b);
    lemma_field("mode"@, text_bytes(mode_a), text_bytes(mode_b), rest_a, rest_b);
    lemma_same_texts(mode_a, mode_b);
    if exclusions is Some && other_exclusions is Some {
        lemma_exclusions(exclusions->0, other_exclusions->0);
    }
}

proof fn lemma_words()
    ensures
        text_bytes("direct"@).len() == 6,
        text_bytes("managed"@).len() == 7,
        text_bytes("unmanaged"@).len() == 9,
{
    reveal_strlit("direct");
    reveal_strlit("managed");
    reveal_strlit("unmanaged");
    assert(vstd::utf8::is_ascii_chars("direct"@));
    assert(vstd::utf8::is_ascii_chars("managed"@));
    assert(vstd::utf8::is_ascii_chars("unmanaged"@));
    vstd::utf8::is_ascii_chars_encode_utf8("direct"@);
    vstd::utf8::is_ascii_chars_encode_utf8("managed"@);
    vstd::utf8::is_ascii_chars_encode_utf8("unmanaged"@);
}

proof fn lemma_mode(exclusions: Option<Seq<Ref>>) -> (parts: (Seq<char>, Seq<u8>))
    ensures
        exclusions matches Some(list) ==> parts.0 == "managed"@ && parts.1 == exclusion_fields(list),
        exclusions is None ==> parts.0 == "unmanaged"@ && parts.1 == Seq::<u8>::empty(),
{
    match exclusions {
        Some(list) => ("managed"@, exclusion_fields(list)),
        None => ("unmanaged"@, Seq::empty()),
    }
}

/// Builds whose layers are known by the same have the same machine, the same place, the same
/// project and the same structure.
pub proof fn law_known_layers_have_the_same_inputs(
    left: BuildFacts,
    right: BuildFacts,
    structure: Seq<char>,
    other: Seq<char>,
)
    requires
        countable_facts(left),
        countable_facts(right),
        is_countable(text_bytes(structure).len()),
        is_countable(text_bytes(other).len()),
        layer_key_bytes(left, structure) == layer_key_bytes(right, other),
    ensures
        left.os@ == right.os@,
        left.arch@ == right.arch@,
        left.studio@ == right.studio@,
        left.project_name@ == right.project_name@,
        structure == other,
{
    let domain = "carbon-build-layer-v1"@;
    let tail = key_field("mode"@, text_bytes("unmanaged"@));
    let after_a = key_field("mappedStructure"@, text_bytes(structure)) + tail;
    let after_b = key_field("mappedStructure"@, text_bytes(other)) + tail;
    lemma_paired(common_fields(domain, left), key_field("mappedStructure"@, text_bytes(structure)), tail);
    lemma_paired(common_fields(domain, right), key_field("mappedStructure"@, text_bytes(other)), tail);
    lemma_common(domain, left, right, after_a, after_b);
    lemma_field("mappedStructure"@, text_bytes(structure), text_bytes(other), tail, tail);
    lemma_same_texts(structure, other);
}

} // verus!
