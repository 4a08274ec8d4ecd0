//! What is taken from outside, and what is kept of it: records of bridges, the answers of
//! the helper, attributes of a session and the sources of a cached build.

use crate::attributes::{authored_attributes, has_session, without_route};
use crate::bridge::{answers_for, studio_bridge, without, ProbedBridge};
use crate::bridge_frames::{response_of, ResponseView};
use crate::bridge_records::{newest, newest_first, record_placed, RecordView};
use crate::build_cache::{patches_for, source_of};
use crate::managed_hierarchy::le_bytes;
use crate::text::{law_written_identities_keep_their_order, ref_chars, text_bytes};
use crate::transactions::le_number;
use crate::variant::{AttributeView, VariantView};
use crate::Ref;
use vstd::prelude::*;

verus! {

// ---------------------------------------------------------------------------
// Records

/// None of a list is older than one behind it.
pub open spec fn none_newer_behind(list: Seq<RecordView>) -> bool {
    forall|i: int, j: int| 0 <= i < j < list.len() ==> (#[trigger] list[i]).modified >= (#[trigger] list[j]).modified
}

proof fn lemma_placed(list: Seq<RecordView>, record: RecordView)
    requires
        none_newer_behind(list),
    ensures
        none_newer_behind(record_placed(list, record)),
        record_placed(list, record).to_multiset() == list.to_multiset().insert(record),
        record_placed(list, record).len() == list.len() + 1,
        forall|k: int|
            0 <= k < record_placed(list, record).len() ==> (#[trigger] record_placed(list, record)[k]).modified
                >= record.modified || list.contains(record_placed(list, record)[k]),
    decreases list.len(),
{
    broadcast use vstd::seq_lib::group_to_multiset_ensures;

    let placed = record_placed(list, record);
    if list.len() > 0 && list.last().modified < record.modified {
        let shorter = list.drop_last();
        let inner = record_placed(shorter, record);
        assert forall|i: int, j: int| 0 <= i < j < shorter.len() implies (#[trigger] shorter[i]).modified >= (
        #[trigger] shorter[j]).modified by {
            assert(shorter[i] == list[i] && shorter[j] == list[j]);
        }
        lemma_placed(shorter, record);
        assert(shorter.push(list.last()) =~= list);
        assert(placed =~= inner.push(list.last()));
        assert forall|k: int| 0 <= k < inner.len() implies (#[trigger] inner[k]).modified >= list.last().modified by {
            if shorter.contains(inner[k]) {
                let at = shorter.index_of(inner[k]);
                assert(list[at] == inner[k]);
                assert(list[at].modified >= list[list.len() - 1].modified);
            }
        }
        assert(placed.to_multiset() =~= list.to_multiset().insert(record));
        assert forall|k: int| 0 <= k < placed.len() implies (#[trigger] placed[k]).modified >= record.modified
            || list.contains(placed[k]) by {
            if k < inner.len() {
                assert(placed[k] == inner[k]);
                if shorter.contains(inner[k]) {
                    assert(list[shorter.index_of(inner[k])] == inner[k]);
                }
            } else {
                assert(list[list.len() - 1] == placed[k]);
            }
        }
    } else {
        assert(placed == list.push(record));
        assert forall|k: int| 0 <= k < placed.len() implies (#[trigger] placed[k]).modified >= record.modified
            || list.contains(placed[k]) by {
            if k < list.len() {
                assert(placed[k] == list[k]);
            }
        }
        assert forall|i: int, j: int| 0 <= i < j < placed.len() implies (#[trigger] placed[i]).modified >= (
        #[trigger] placed[j]).modified by {
            if j == list.len() {
                assert(list[i].modified >= list.last().modified);
            } else {
                assert(list[i].modified >= list[j].modified);
            }
        }
    }
}

/// Records are tried from the newest to the oldest, and each of them is.
pub proof fn law_newest_records_are_tried_first(list: Seq<RecordView>)
    ensures
        none_newer_behind(newest_first(list)),
        newest_first(list).to_multiset() == list.to_multiset(),
    decreases list.len(),
{
    broadcast use vstd::seq_lib::group_to_multiset_ensures;

    if list.len() > 0 {
        law_newest_records_are_tried_first(list.drop_last());
        lemma_placed(newest_first(list.drop_last()), list.last());
        assert(list.drop_last().push(list.last()) =~= list);
    } else {
        assert(list =~= Seq::empty());
    }
}

/// The record of a bridge is the one that was written last: no other is newer, and one that
/// is as new stands before it.
pub proof fn law_latest_record_counts(list: Seq<RecordView>)
    ensures
        newest(list) is None <==> list.len() == 0,
        newest(list) matches Some(best) ==> exists|at: int|
            0 <= at < list.len() && #[trigger] list[at] == best && (forall|k: int|
                0 <= k < at ==> (#[trigger] list[k]).modified <= best.modified) && (forall|k: int|
                at < k < list.len() ==> (#[trigger] list[k]).modified < best.modified),
    decreases list.len(),
{
    if list.len() > 0 {
        let shorter = list.drop_last();
        law_latest_record_counts(shorter);
        let best = newest(list)->0;
        match newest(shorter) {
            Some(former) => {
                let at = choose|at: int|
                    0 <= at < shorter.len() && #[trigger] shorter[at] == former && (forall|k: int|
                        0 <= k < at ==> (#[trigger] shorter[k]).modified <= former.modified) && (forall|k: int|
                        at < k < shorter.len() ==> (#[trigger] shorter[k]).modified < former.modified);
                assert forall|k: int| 0 <= k < shorter.len() implies (#[trigger] list[k]).modified
                    <= former.modified by {
                    assert(shorter[k] == list[k]);
                }
                if former.modified > list.last().modified {
                    assert forall|k: int| at < k < list.len() implies (#[trigger] list[k]).modified
                        < best.modified by {
                        if k < shorter.len() {
                            assert(shorter[k] == list[k]);
                        }
                    }
                    assert(list[at] == best);
                } else {
                    assert(list[list.len() - 1] == best);
                }
            },
            None => {
                assert(list[list.len() - 1] == best);
            },
        }
    }
}

// ---------------------------------------------------------------------------
// Bridges

/// A bridge says of itself what its record says.
pub open spec fn is_itself(probed: ProbedBridge) -> bool {
    probed.identity.bridge_id@ == probed.bridge_id@ && probed.identity.process_id == probed.process_id
}

/// At most one bridge answers for a Studio: it is found where it is the only one and says of
/// itself what its record says, there is none where none answers, and anything else is
/// refused.
pub proof fn law_one_bridge_answers(probes: Seq<ProbedBridge>, session: Seq<char>, instance: Seq<char>)
    ensures
        studio_bridge(probes, session, instance) == Ok::<Option<Seq<char>>, crate::bridge::BridgeError>(None)
            <==> forall|k: int| 0 <= k < probes.len() ==> !answers_for(#[trigger] probes[k], session, instance),
        forall|at: int|
            0 <= at < probes.len() && answers_for(#[trigger] probes[at], session, instance) && (forall|k: int|
                0 <= k < probes.len() && k != at ==> !answers_for(#[trigger] probes[k], session, instance)) && is_itself(
                probes[at],
            ) ==> studio_bridge(probes, session, instance) == Ok::<Option<Seq<char>>, crate::bridge::BridgeError>(
                Some(probes[at].bridge_id@),
            ),
        forall|at: int, other: int|
            0 <= at < other < probes.len() && answers_for(#[trigger] probes[at], session, instance) && answers_for(
                #[trigger] probes[other],
                session,
                instance,
            ) ==> studio_bridge(probes, session, instance) is Err,
        forall|at: int|
            0 <= at < probes.len() && answers_for(#[trigger] probes[at], session, instance) && !is_itself(probes[at])
                ==> studio_bridge(probes, session, instance) is Err,
    decreases probes.len(),
{
    if probes.len() > 0 {
        let fewer = probes.drop_last();
        let last = probes.len() - 1;
        law_one_bridge_answers(fewer, session, instance);
        assert(forall|k: int| 0 <= k < fewer.len() ==> #[trigger] fewer[k] == probes[k]);
        assert(probes[last] == probes.last());
        assert(forall|k: int| 0 <= k < last ==> #[trigger] probes[k] == fewer[k]);
    }
}

/// The bridges to wait for are those that are active and not left out.
pub proof fn law_left_out_bridges_do_not_count(list: Seq<Seq<char>>, excluded: Seq<Seq<char>>, id: Seq<char>)
    ensures
        without(list, excluded).contains(id) <==> list.contains(id) && !excluded.contains(id),
        list.no_duplicates() ==> without(list, excluded).no_duplicates(),
    decreases list.len(),
{
    if list.len() > 0 {
        let fewer = list.drop_last();
        let rest = without(fewer, excluded);
        let all = without(list, excluded);
        law_left_out_bridges_do_not_count(fewer, excluded, id);
        law_left_out_bridges_do_not_count(fewer, excluded, list.last());
        assert(list[list.len() - 1] == list.last());
        if fewer.contains(id) {
            assert(list[fewer.index_of(id)] == id);
        }
        if list.contains(id) && id != list.last() {
            let at = list.index_of(id);
            assert(fewer[at] == id);
        }
        if rest.contains(id) && !excluded.contains(list.last()) {
            assert(all[rest.index_of(id)] == id);
        }
        if !excluded.contains(list.last()) {
            assert(all[all.len() - 1] == list.last());
            if all.contains(id) && id != list.last() {
                let at = all.index_of(id);
                assert(rest[at] == id);
            }
        }
        if list.no_duplicates() {
            assert forall|i: int, j: int| 0 <= i < fewer.len() && 0 <= j < fewer.len() && i != j implies fewer[i]
                != fewer[j] by {
                assert(list[i] != list[j]);
            }
            assert(!fewer.contains(list.last())) by {
                if fewer.contains(list.last()) {
                    let at = fewer.index_of(list.last());
                    assert(list[at] == list[list.len() - 1]);
                }
            }
            assert(!rest.contains(list.last()));
        }
    }
}

// ---------------------------------------------------------------------------
// Answers of the helper

pub(crate) proof fn lemma_le(value: nat, len: nat)
    requires
        value < vstd::arithmetic::power2::pow2(8 * len),
    ensures
        le_bytes(value, len).len() == len,
        le_number(le_bytes(value, len)) == value,
    decreases len,
{
    vstd::arithmetic::power2::lemma2_to64();
    if len == 0 {
        assert(vstd::arithmetic::power2::pow2(0) == 1);
    } else {
        let rest = vstd::arithmetic::power2::pow2((8 * (len - 1)) as nat);
        vstd::arithmetic::power2::lemma_pow2_adds(8, (8 * (len - 1)) as nat);
        assert(8 * len == 8 + 8 * (len - 1));
        assert(vstd::arithmetic::power2::pow2(8) == 256);
        assert(value / 256 < rest) by (nonlinear_arith)
            requires
                value < 256 * rest,
        ;
        lemma_le(value / 256, (len - 1) as nat);
        let bytes = le_bytes(value, len);
        assert(bytes.skip(1) =~= le_bytes(value / 256, (len - 1) as nat));
        assert(bytes[0] == (value % 256) as u8);
    }
}

proof fn lemma_mark()
    ensures
        text_bytes("CBRS0001"@).len() == 8,
{
    reveal_strlit("CBRS0001");
    assert(vstd::utf8::is_ascii_chars("CBRS0001"@));
    vstd::utf8::is_ascii_chars_encode_utf8("CBRS0001"@);
}

pub(crate) proof fn lemma_text(text: Seq<char>)
    ensures
        vstd::utf8::valid_utf8(text_bytes(text)),
        vstd::utf8::decode_utf8(text_bytes(text)) == text,
        text_bytes(text).len() == 0 <==> text.len() == 0,
{
    vstd::utf8::encode_utf8_valid_utf8(text);
    vstd::utf8::encode_utf8_decode_utf8(text);
    if text_bytes(text).len() == 0 {
        let none = Seq::<char>::empty();
        assert(text_bytes(text) =~= text_bytes(none));
        vstd::utf8::encode_utf8_decode_utf8(none);
    }
}

/// What the helper writes: its mark, the status, the declared length, the length of the
/// range, the range and the body.
pub open spec fn helper_bytes(status: u32, declared: Option<u64>, range: Seq<char>, body: Seq<u8>) -> Seq<u8> {
    text_bytes("CBRS0001"@) + le_bytes(status as nat, 4) + le_bytes(
        if declared is Some {
            declared->0 as nat
        } else {
            0xffff_ffff_ffff_ffff
        },
        8,
    ) + le_bytes(text_bytes(range).len(), 4) + text_bytes(range) + body
}

/// The answer of the helper is read as it was written. A declared length that is the largest
/// number stands for none.
pub proof fn law_helper_answers_are_read_back(
    status: u32,
    declared: Option<u64>,
    range: Seq<char>,
    body: Seq<u8>,
    process_id: u32,
)
    requires
        declared != Some(u64::MAX),
        text_bytes(range).len() < 0x1_0000_0000,
    ensures
        response_of(helper_bytes(status, declared, range, body), process_id) == Ok::<
            ResponseView,
            crate::bridge::BridgeError,
        >(
            ResponseView {
                status,
                content_length: declared,
                content_range: if range.len() > 0 {
                    Some(range)
                } else {
                    None
                },
                body,
            },
        ),
{
    let length = if declared is Some {
        declared->0 as nat
    } else {
        0xffff_ffff_ffff_ffff
    };
    let mark = text_bytes("CBRS0001"@);
    let text = text_bytes(range);
    let bytes = helper_bytes(status, declared, range, body);
    vstd::arithmetic::power2::lemma2_to64();
    lemma_le(status as nat, 4);
    lemma_le(length, 8);
    lemma_le(text.len(), 4);
    lemma_mark();
    assert(bytes.take(8) =~= mark);
    assert(bytes.subrange(8, 12) =~= le_bytes(status as nat, 4));
    assert(bytes.subrange(12, 20) =~= le_bytes(length, 8));
    assert(bytes.subrange(20, 24) =~= le_bytes(text.len(), 4));
    assert(bytes.subrange(24, 24 + text.len() as int) =~= text);
    assert(bytes.skip(24 + text.len() as int) =~= body);
    lemma_text(range);
}

// ---------------------------------------------------------------------------
// Attributes of a session

/// An attribute ties an instance to a session, by its name.
pub open spec fn ties_to_session(name: Seq<char>) -> bool {
    ||| name == "__StudioWorktree_CarbonEndpoint"@
    ||| name == "__StudioWorktree_CarbonProject"@
    ||| name == "__StudioWorktree_CarbonGeneration"@
    ||| name == "__StudioWorktree_Identity"@
    ||| name == "__StudioWorktree_Session"@
}

/// What an author gave an instance stays and what ties it to a session goes: of the
/// attributes only those go that a session writes, the place of a session where it is named
/// after the marker, and none of the others changes.
pub proof fn law_authored_attributes_stay(
    attributes: Map<Seq<char>, AttributeView>,
    marker: Seq<char>,
    name: Seq<char>,
)
    ensures
        ({
            let left = authored_attributes(attributes, marker);
            &&& ties_to_session(name) ==> !left.dom().contains(name)
            &&& !ties_to_session(name) && name != "__MCPPlaceId"@ ==> left.dom().contains(name)
                == attributes.dom().contains(name)
            &&& attributes.dom().contains(name) && name == "__MCPPlaceId"@ && (attributes[name] == AttributeView::String(
                marker,
            ) || attributes[name] == AttributeView::BinaryString(text_bytes(marker))) ==> !left.dom().contains(name)
            &&& attributes.dom().contains(name) && !ties_to_session(name) && attributes[name] is Opaque
                ==> left.dom().contains(name)
            &&& left.dom().contains(name) ==> attributes.dom().contains(name) && left[name] == attributes[name]
            &&& has_session(attributes, marker) <==> left.dom() != attributes.dom()
        }),
{
    let left = authored_attributes(attributes, marker);
    reveal_strlit("__MCPPlaceId");
    reveal_strlit("__StudioWorktree_CarbonEndpoint");
    reveal_strlit("__StudioWorktree_CarbonProject");
    reveal_strlit("__StudioWorktree_CarbonGeneration");
    reveal_strlit("__StudioWorktree_Identity");
    reveal_strlit("__StudioWorktree_Session");
    assert forall|other: Seq<char>| #[trigger] attributes.dom().contains(other) implies (left.dom().contains(other)
        <==> !crate::attributes::session_attribute(attributes, marker, other)) by {}
    if has_session(attributes, marker) {
        let gone = choose|gone: Seq<char>| #[trigger] crate::attributes::session_attribute(attributes, marker, gone);
        assert(attributes.dom().contains(gone) && !left.dom().contains(gone));
    } else {
        assert(left.dom() =~= attributes.dom());
    }
}

/// Stripping a session touches attributes only: any other property stays as it is, and so do
/// the attributes that a session did not write. A property goes where a session wrote all of
/// its attributes.
pub proof fn law_stripping_spares_properties(
    properties: Map<Seq<char>, VariantView>,
    marker: Seq<char>,
    name: Seq<char>,
)
    requires
        properties.dom().contains(name),
    ensures
        ({
            let left = without_route(properties, marker);
            let value = properties[name];
            &&& !"Attributes"@.is_prefix_of(name) || !(value is Attributes || value is BinaryString)
                ==> left.dom().contains(name) && left[name] == value
            &&& "Attributes"@.is_prefix_of(name) && value is Attributes && authored_attributes(
                value->Attributes_0,
                marker,
            ).dom() != Set::<Seq<char>>::empty() ==> left.dom().contains(name) && left[name] == VariantView::Attributes(
                authored_attributes(value->Attributes_0, marker),
            )
            &&& "Attributes"@.is_prefix_of(name) && value is Attributes && value->Attributes_0.dom() != Set::<
                Seq<char>,
            >::empty() && authored_attributes(value->Attributes_0, marker).dom() == Set::<Seq<char>>::empty()
                ==> !left.dom().contains(name)
        }),
{
    let value = properties[name];
    if value is Attributes {
        law_authored_attributes_stay(value->Attributes_0, marker, name);
    }
}

// ---------------------------------------------------------------------------
// Sources of a cached build

proof fn lemma_source_of(scripts: Seq<(Ref, Seq<u8>)>, at: int)
    requires
        0 <= at < scripts.len(),
        forall|k: int| at < k < scripts.len() ==> (#[trigger] scripts[k]).0 != scripts[at].0,
    ensures
        source_of(scripts, ref_chars(scripts[at].0)) == Some(scripts[at].1),
    decreases scripts.len(),
{
    if at < scripts.len() - 1 {
        let fewer = scripts.drop_last();
        assert(scripts[scripts.len() - 1].0 != scripts[at].0);
        law_written_identities_keep_their_order(scripts.last().0, scripts[at].0);
        assert(forall|k: int| 0 <= k < fewer.len() ==> #[trigger] fewer[k] == scripts[k]);
        lemma_source_of(fewer, at);
    }
}

/// A cached build gets the sources of now: the patch at a script's position holds the source
/// of that script and of no other.
pub proof fn law_patches_bring_current_sources(
    scripts: Seq<(Ref, Seq<u8>)>,
    positions: Seq<(Seq<char>, Seq<char>, u32)>,
    at: int,
    k: int,
)
    requires
        patches_for(scripts, positions) is Some,
        0 <= at < scripts.len(),
        forall|later: int| at < later < scripts.len() ==> (#[trigger] scripts[later]).0 != scripts[at].0,
        0 <= k < positions.len(),
        positions[k].0 == ref_chars(scripts[at].0),
    ensures
        patches_for(scripts, positions)->0.len() == positions.len(),
        patches_for(scripts, positions)->0[k] == (positions[k].1, positions[k].2, scripts[at].1),
    decreases positions.len(),
{
    lemma_patches_len(scripts, positions);
    let fewer = positions.drop_last();
    lemma_patches_len(scripts, fewer);
    if k == positions.len() - 1 {
        lemma_source_of(scripts, at);
    } else {
        assert(fewer[k] == positions[k]);
        law_patches_bring_current_sources(scripts, fewer, at, k);
    }
}

proof fn lemma_patches_len(scripts: Seq<(Ref, Seq<u8>)>, positions: Seq<(Seq<char>, Seq<char>, u32)>)
    ensures
        patches_for(scripts, positions) matches Some(patches) ==> patches.len() == positions.len(),
    decreases positions.len(),
{
    if positions.len() > 0 {
        lemma_patches_len(scripts, positions.drop_last());
    }
}

} // verus!
