//! What comparing places is for: whatever an author changed counts as a change of the game.

use crate::capture_identity::{framed, value_text};
use crate::manifest_identity::lemma_be_bytes_len;
use crate::place::{placed, ref_place, runtime_above, PlaceNode, PlaceStructure};
use crate::place_diff::{
    all_differences, compared, compares, counterparts, lone_difference, lone_differences, node_differences,
    pair_differences, property_difference, property_names, service_shell, with_impact, Compared, DiffReport,
    DifferenceView, Impact,
};
use crate::place_fingerprints::{canonical, default_prints, edit_camera, entry, own_prints, prints, used, used_names};
use crate::place_matching::MatchingView;
use crate::reflection::Reflection;
use crate::text::text_bytes;
use crate::text_map::{lemma_ordered_keys, ordered_keys};
use crate::variant::VariantView;
use vstd::prelude::*;

verus! {

// ---------------------------------------------------------------------------
// What an author made

/// An instance is another one or stands below it.
pub open spec fn under(all: Seq<PlaceNode>, at: int, above: int) -> bool
    decreases at,
{
    at == above || match all[at].parent {
        Some(parent) => parent < at && under(all, parent as int, above),
        None => false,
    }
}

/// An instance that no part of Studio made for itself: it stands in none of the services
/// that hold nothing of a game, neither it nor anything above it is named as what Studio
/// puts there, and no workspace is looked at through it.
pub open spec fn is_made_by_author(place: PlaceStructure, at: int) -> bool {
    let all = place.nodes@;
    let root = all[all[at].root_child as int];
    &&& 0 <= at < all.len()
    &&& root.class@ != "CoreGui"@ && root.class@ != "MemStorageService"@ && root.class@ != "PluginConnectionService"@
        && root.class@ != "PluginGuiService"@ && root.class@ != "VisualizationModeService"@
    &&& forall|above: int| #[trigger]
        under(all, at, above) ==> all[above].name@ != "FilteredSelection"@ && all[above].name@ != "InsertionHash"@
    &&& forall|w: int|
        0 <= w < all.len() && (#[trigger] all[w]).class@ == "Workspace"@ ==> !(all[w].properties.deep().dom().contains(
            "CurrentCamera"@,
        ) && all[w].properties.deep()["CurrentCamera"@] == VariantView::Ref(all[at].referent))
}

proof fn lemma_not_above(place: PlaceStructure, reflection: Reflection, at: int)
    requires
        place.wf(),
        place.marked(reflection),
        0 <= at < place.nodes@.len(),
        forall|above: int| #[trigger]
            under(place.nodes@, at, above) ==> place.nodes@[above].name@ != "FilteredSelection"@
                && place.nodes@[above].name@ != "InsertionHash"@,
    ensures
        !runtime_above(place.studio_runtime_roots@, place.nodes@, at),
    decreases at,
{
    let all = place.nodes@;
    assert(under(all, at, at));
    assert(placed(all, at));
    assert(!place.studio_runtime_roots@[at]);
    if let Some(parent) = all[at].parent {
        assert forall|above: int| #[trigger] under(all, parent as int, above) implies all[above].name@
            != "FilteredSelection"@ && all[above].name@ != "InsertionHash"@ by {
            assert(under(all, at, above));
        }
        lemma_not_above(place, reflection, parent as int);
    }
}

proof fn lemma_ref_place(all: Seq<PlaceNode>, id: crate::Ref)
    ensures
        ref_place(all, id) matches Some(at) ==> 0 <= at < all.len() && all[at].referent == id,
    decreases all.len(),
{
    if all.len() > 0 {
        lemma_ref_place(all.drop_last(), id);
    }
}

proof fn lemma_seen(place: PlaceStructure, reflection: Reflection, at: int)
    requires
        place.wf(),
        place.marked(reflection),
        is_made_by_author(place, at),
    ensures
        !place.runtime(at),
        !edit_camera(place, at),
{
    lemma_not_above(place, reflection, at);
    if edit_camera(place, at) {
        let w = choose|w: int|
            0 <= w < place.nodes@.len() && (#[trigger] place.nodes@[w]).class@ == "Workspace"@
                && crate::place_fingerprints::looks_through(place, w, at);
        let target = place.nodes@[w].properties.deep()["CurrentCamera"@]->Ref_0;
        lemma_ref_place(place.nodes@, target);
    }
}

// ---------------------------------------------------------------------------
// Properties

/// Two values that differ: texts, bytes, or values of one kind with other bytes.
pub open spec fn plainly_differ(left: VariantView, right: VariantView) -> bool {
    match (left, right) {
        (VariantView::String(a), VariantView::String(b)) => a != b,
        (VariantView::BinaryString(a), VariantView::BinaryString(b)) => a != b,
        (VariantView::Opaque { kind, bytes }, VariantView::Opaque { kind: other, bytes: others }) => kind == other
            && kind != "UniqueId"@ && bytes != others,
        _ => false,
    }
}

/// A property that files may write in two ways, or that only tells instances apart: the two
/// identifiers, what Studio writes of scripts and folders for itself, the two of lighting
/// that it migrates, and the camera of a workspace.
pub open spec fn may_be_written_otherwise(class: Seq<char>, name: Seq<char>) -> bool {
    ||| name == "UniqueId"@ || name == "HistoryId"@
    ||| (class == "Script"@ || class == "LocalScript"@ || class == "ModuleScript"@) && name == "ScriptGuid"@
    ||| (class == "Script"@ || class == "LocalScript"@ || class == "ModuleScript"@ || class == "Folder"@) && name
        == "SourceAssetId"@
    ||| class == "Lighting"@ && (name == "ClockTime"@ || name == "Technology"@)
    ||| class == "Workspace"@ && name == "CurrentCamera"@
}

proof fn lemma_framed(head: Seq<u8>, a: Seq<u8>, b: Seq<u8>)
    requires
        head + framed(a) == head + framed(b),
    ensures
        a == b,
{
    lemma_be_bytes_len(a.len(), 8);
    lemma_be_bytes_len(b.len(), 8);
    let x = head + framed(a);
    let y = head + framed(b);
    let from = head.len() + 8;
    assert(x.len() == from + a.len() && y.len() == from + b.len());
    assert forall|k: int| 0 <= k < a.len() implies a[k] == b[k] by {
        assert(x[from + k] == a[k]);
        assert(y[from + k] == b[k]);
    }
    assert(a =~= b);
}

proof fn lemma_texts_differ(left: VariantView, right: VariantView)
    requires
        plainly_differ(left, right),
    ensures
        value_text(left) != value_text(right),
{
    if value_text(left) == value_text(right) {
        match (left, right) {
            (VariantView::String(a), VariantView::String(b)) => {
                lemma_framed(framed(text_bytes("String"@)), text_bytes(a), text_bytes(b));
                vstd::utf8::encode_utf8_decode_utf8(a);
                vstd::utf8::encode_utf8_decode_utf8(b);
            },
            (VariantView::BinaryString(a), VariantView::BinaryString(b)) => {
                lemma_framed(framed(text_bytes("BinaryString"@)), a, b);
            },
            (VariantView::Opaque { kind, bytes }, VariantView::Opaque { bytes: others, .. }) => {
                lemma_framed(framed(text_bytes(kind)), bytes, others);
            },
            _ => {},
        }
    }
}

proof fn lemma_some_impact(list: Seq<DifferenceView>, at: int, impact: Impact)
    requires
        0 <= at < list.len(),
        list[at].impact == impact,
    ensures
        with_impact(list, impact) > 0,
    decreases list.len(),
{
    if at < list.len() - 1 {
        lemma_some_impact(list.drop_last(), at, impact);
    }
}

proof fn lemma_in_node(
    left: PlaceStructure,
    right: PlaceStructure,
    reflection: Reflection,
    matching: MatchingView,
    l: int,
    r: int,
    names: Seq<Seq<char>>,
    at: int,
)
    requires
        0 <= at < names.len(),
        property_difference(left, right, reflection, matching, l, r, names[at]) is Some,
    ensures
        node_differences(left, right, reflection, matching, l, r, names).contains(
            property_difference(left, right, reflection, matching, l, r, names[at])->0,
        ),
    decreases names.len(),
{
    let found = property_difference(left, right, reflection, matching, l, r, names[at])->0;
    let all = node_differences(left, right, reflection, matching, l, r, names);
    let before = node_differences(left, right, reflection, matching, l, r, names.drop_last());
    if at == names.len() - 1 {
        assert(all[all.len() - 1] == found);
    } else {
        assert(names.drop_last()[at] == names[at]);
        lemma_in_node(left, right, reflection, matching, l, r, names.drop_last(), at);
        assert(all[before.index_of(found)] == found);
    }
}

proof fn lemma_in_pairs(
    both: Compared,
    reflection: Reflection,
    matching: MatchingView,
    count: nat,
    at: int,
    difference: DifferenceView,
)
    requires
        0 <= at < count <= matching.pairs.len(),
        both.left_own[matching.pairs[at].0 as int].full != both.right_own[matching.pairs[at].1 as int].full,
        ({
            let l = matching.pairs[at].0 as int;
            let r = matching.pairs[at].1 as int;
            node_differences(
                both.left,
                both.right,
                reflection,
                matching,
                l,
                r,
                property_names(both.left, both.right, l, r),
            ).contains(difference)
        }),
    ensures
        pair_differences(both, reflection, matching, count).contains(difference),
    decreases count,
{
    let all = pair_differences(both, reflection, matching, count);
    let before = pair_differences(both, reflection, matching, (count - 1) as nat);
    if at == count - 1 {
        let l = matching.pairs[at].0 as int;
        let r = matching.pairs[at].1 as int;
        let last = node_differences(
            both.left,
            both.right,
            reflection,
            matching,
            l,
            r,
            property_names(both.left, both.right, l, r),
        );
        assert(all == before + last);
        assert(all[before.len() + last.index_of(difference)] == difference);
    } else {
        lemma_in_pairs(both, reflection, matching, (count - 1) as nat, at, difference);
        assert(all[before.index_of(difference)] == difference);
    }
}

proof fn lemma_blocks(report: DiffReport, left: PlaceStructure, right: PlaceStructure, reflection: Reflection, max: nat, difference: DifferenceView)
    requires
        compares(report, left, right, reflection, max),
        all_differences(compared(left, right, reflection), reflection).contains(difference),
        difference.impact == Impact::PotentialGameplay,
    ensures
        report.blocking_differences > 0,
{
    let list = all_differences(compared(left, right, reflection), reflection);
    lemma_some_impact(list, list.index_of(difference), Impact::PotentialGameplay);
}

/// A changed property counts as a change of the game. Where two instances that an author
/// made are each other's counterparts, are not the same by their fingerprints, and have
/// values of a property that plainly differ, the report has a blocking difference: the
/// properties that files may write in two ways are the only ones that are let through.
pub proof fn law_changed_properties_block(
    report: DiffReport,
    left: PlaceStructure,
    right: PlaceStructure,
    reflection: Reflection,
    max: nat,
    pair: int,
    name: Seq<char>,
)
    requires
        compares(report, left, right, reflection, max),
        left.wf() && left.marked(reflection),
        right.wf() && right.marked(reflection),
        ({
            let both = compared(left, right, reflection);
            let pairs = counterparts(both).pairs;
            let l = pairs[pair].0 as int;
            let r = pairs[pair].1 as int;
            let before = left.nodes@[l].properties.deep();
            let after = right.nodes@[r].properties.deep();
            &&& 0 <= pair < pairs.len()
            &&& is_made_by_author(left, l)
            &&& is_made_by_author(right, r)
            &&& both.left_own[l].full != both.right_own[r].full
            &&& before.dom().finite() && after.dom().finite()
            &&& before.dom().contains(name) && after.dom().contains(name)
            &&& plainly_differ(before[name], after[name])
            &&& !may_be_written_otherwise(left.nodes@[l].class@, name)
        }),
    ensures
        report.blocking_differences > 0,
        exists|k: int|
            0 <= k < all_differences(compared(left, right, reflection), reflection).len() && #[trigger] blocks_on(
                all_differences(compared(left, right, reflection), reflection)[k],
                name,
            ),
{
    let both = compared(left, right, reflection);
    let matching = counterparts(both);
    let l = matching.pairs[pair].0 as int;
    let r = matching.pairs[pair].1 as int;
    let before = left.nodes@[l].properties.deep();
    let after = right.nodes@[r].properties.deep();
    lemma_seen(left, reflection, l);
    lemma_seen(right, reflection, r);
    lemma_texts_differ(before[name], after[name]);
    let found = property_difference(left, right, reflection, matching, l, r, name);
    assert(found is Some);
    assert(found->0.impact == Impact::PotentialGameplay) by {
        lemma_not_engine(left, right, l, r, name, before[name], after[name]);
    }
    let dom = before.dom().union(after.dom());
    let names = property_names(left, right, l, r);
    lemma_ordered_keys(dom);
    assert(names.to_set().contains(name));
    let at = names.index_of(name);
    lemma_in_node(left, right, reflection, matching, l, r, names, at);
    lemma_in_pairs(both, reflection, matching, matching.pairs.len(), pair, found->0);
    let all = all_differences(both, reflection);
    let last = pair_differences(both, reflection, matching, matching.pairs.len());
    let from = all.len() - last.len();
    assert(all[from + last.index_of(found->0)] == found->0);
    lemma_blocks(report, left, right, reflection, max, found->0);
    assert(blocks_on(all[from + last.index_of(found->0)], name));
}

/// A difference of a property that can affect the game.
pub open spec fn blocks_on(difference: DifferenceView, name: Seq<char>) -> bool {
    difference.impact == Impact::PotentialGameplay && difference.property == Some(name) && difference.kind
        == "property_changed"@
}

proof fn lemma_not_engine(
    left: PlaceStructure,
    right: PlaceStructure,
    l: int,
    r: int,
    name: Seq<char>,
    before: VariantView,
    after: VariantView,
)
    requires
        !may_be_written_otherwise(left.nodes@[l].class@, name),
    ensures
        !crate::place_diff::engine_equivalent(left, right, l, r, name, Some(before), Some(after)),
{
}

/// An instance that only one of two places has counts as a change of the game, where an
/// author made it: only a service that stands right below the root may be missing, and only
/// while it holds no instance that an author made.
pub proof fn law_added_and_removed_instances_block(
    report: DiffReport,
    left: PlaceStructure,
    right: PlaceStructure,
    reflection: Reflection,
    max: nat,
    at: int,
    child: int,
    removed: bool,
)
    requires
        compares(report, left, right, reflection, max),
        left.wf() && left.marked(reflection),
        right.wf() && right.marked(reflection),
        ({
            let matching = counterparts(compared(left, right, reflection));
            let (place, alone) = if removed {
                (left, matching.left_unmatched)
            } else {
                (right, matching.right_unmatched)
            };
            &&& 0 <= at < alone.len()
            &&& is_made_by_author(place, alone[at] as int)
            &&& {
                ||| place.nodes@[alone[at] as int].parent != Some(0usize)
                ||| !reflection.service(place.nodes@[alone[at] as int].class@)
                ||| 0 <= child < place.nodes@[alone[at] as int].children@.len() && is_made_by_author(
                    place,
                    place.nodes@[alone[at] as int].children@[child] as int,
                )
            }
        }),
    ensures
        report.blocking_differences > 0,
{
    let both = compared(left, right, reflection);
    let matching = counterparts(both);
    let (place, alone) = if removed {
        (left, matching.left_unmatched)
    } else {
        (right, matching.right_unmatched)
    };
    let node = alone[at] as int;
    lemma_seen(place, reflection, node);
    if 0 <= child < place.nodes@[node].children@.len() && is_made_by_author(
        place,
        place.nodes@[node].children@[child] as int,
    ) {
        lemma_seen(place, reflection, place.nodes@[node].children@[child] as int);
    }
    assert(!service_shell(place, reflection, node));
    let found = lone_difference(place, reflection, node, removed);
    let gone = lone_differences(left, reflection, matching.left_unmatched, true);
    let come = lone_differences(right, reflection, matching.right_unmatched, false);
    let last = pair_differences(both, reflection, matching, matching.pairs.len());
    let all = all_differences(both, reflection);
    let from = all.len() - last.len() - come.len() - gone.len();
    if removed {
        assert(gone[at] == found);
        assert(all[from + at] == found);
    } else {
        assert(come[at] == found);
        assert(all[from + gone.len() + at] == found);
    }
    lemma_blocks(report, left, right, reflection, max, found);
}

// ---------------------------------------------------------------------------
// Fingerprints

/// Two instances that are the same but for one property.
pub open spec fn same_but_for(left: PlaceNode, right: PlaceNode, name: Seq<char>) -> bool {
    let before = left.properties.deep();
    let after = right.properties.deep();
    &&& left.class@ == right.class@
    &&& before.dom() == after.dom()
    &&& before.dom().finite()
    &&& forall|other: Seq<char>| #[trigger]
        before.dom().contains(other) && other != name ==> before[other] == after[other] && !(before[other] is Ref)
            && !(before[other] is Object)
}

/// Instances of a class have the same properties in two places.
pub open spec fn same_use(left: Seq<PlaceNode>, right: Seq<PlaceNode>, class: Seq<char>) -> bool {
    &&& used_names(left, class) == used_names(right, class)
    &&& used_names(left, class).finite()
}

proof fn lemma_no_defaults(place: PlaceStructure, reflection: Reflection, at: int, names: Seq<Seq<char>>)
    requires
        forall|k: int| 0 <= k < names.len() ==> used(place.nodes@, place.nodes@[at].class@, #[trigger] names[k]),
    ensures
        default_prints(place, reflection, at, names) == own_prints(
            place,
            at,
            ordered_keys(place.nodes@[at].properties.deep().dom()),
        ),
    decreases names.len(),
{
    if names.len() > 0 {
        let rest = names.drop_last();
        assert(forall|k: int| 0 <= k < rest.len() ==> #[trigger] rest[k] == names[k]);
        assert(names[names.len() - 1] == names.last());
        lemma_no_defaults(place, reflection, at, rest);
    }
}

proof fn lemma_prints_are_own(place: PlaceStructure, other: Seq<PlaceNode>, reflection: Reflection, at: int)
    requires
        same_use(place.nodes@, other, place.nodes@[at].class@),
    ensures
        prints(place, other, reflection, at) == own_prints(
            place,
            at,
            ordered_keys(place.nodes@[at].properties.deep().dom()),
        ),
{
    let class = place.nodes@[at].class@;
    let names = ordered_keys(used_names(other, class));
    lemma_ordered_keys(used_names(other, class));
    assert forall|k: int| 0 <= k < names.len() implies used(place.nodes@, class, #[trigger] names[k]) by {
        assert(names.contains(names[k]));
        assert(names.to_set().contains(names[k]));
        assert(used_names(place.nodes@, class).contains(names[k]));
    }
    lemma_no_defaults(place, reflection, at, names);
}

proof fn lemma_xor(x: u128, y: u128, a: u128, b: u128, d: u128)
    ensures
        (x ^ d) ^ (y ^ d) == x ^ y,
        (x ^ a) ^ (x ^ b) == a ^ b,
        x ^ x == 0,
        x ^ y == 0 ==> x == y,
{
    assert((x ^ d) ^ (y ^ d) == x ^ y) by (bit_vector);
    assert((x ^ a) ^ (x ^ b) == a ^ b) by (bit_vector);
    assert(x ^ x == 0) by (bit_vector);
    assert(x ^ y == 0 ==> x == y) by (bit_vector);
}

proof fn lemma_one_print(
    left: PlaceStructure,
    right: PlaceStructure,
    l: int,
    r: int,
    name: Seq<char>,
    names: Seq<Seq<char>>,
)
    requires
        same_but_for(left.nodes@[l], right.nodes@[r], name),
        names.no_duplicates(),
        forall|k: int| 0 <= k < names.len() ==> left.nodes@[l].properties.deep().dom().contains(#[trigger] names[k]),
        ({
            let before = left.nodes@[l].properties.deep()[name];
            let after = right.nodes@[r].properties.deep()[name];
            &&& before is String && after is String
            &&& name != "UniqueId"@ && name != "HistoryId"@
        }),
    ensures
        ({
            let a = own_prints(left, l, names).full;
            let b = own_prints(right, r, names).full;
            let x = entry(name, value_text(left.nodes@[l].properties.deep()[name]));
            let y = entry(name, value_text(right.nodes@[r].properties.deep()[name]));
            &&& a.count == b.count
            &&& if names.contains(name) {
                a.high ^ b.high == x.0 ^ y.0 && a.low ^ b.low == x.1 ^ y.1
            } else {
                a.high == b.high && a.low == b.low
            }
        }),
    decreases names.len(),
{
    if names.len() > 0 {
        let rest = names.drop_last();
        let last = names.last();
        assert(forall|k: int| 0 <= k < rest.len() ==> #[trigger] rest[k] == names[k]);
        assert(names[names.len() - 1] == last);
        assert(rest.no_duplicates()) by {
            assert forall|i: int, j: int| 0 <= i < rest.len() && 0 <= j < rest.len() && i != j implies rest[i] != rest[j] by {
                assert(names[i] != names[j]);
            }
        }
        lemma_one_print(left, right, l, r, name, rest);
        let before = left.nodes@[l].properties.deep();
        let after = right.nodes@[r].properties.deep();
        let a = own_prints(left, l, rest).full;
        let b = own_prints(right, r, rest).full;
        let x = entry(name, value_text(before[name]));
        let y = entry(name, value_text(after[name]));
        if rest.contains(name) {
            let k = rest.index_of(name);
            assert(names[k] != names[names.len() - 1]);
            assert(names[k] == name);
        }
        if names.contains(name) && !rest.contains(name) {
            let k = names.index_of(name);
            if k < rest.len() {
                assert(rest[k] == name);
            }
        }
        if last == name {
            assert(names.contains(name));
            lemma_xor(a.high, b.high, x.0, y.0, 0);
            lemma_xor(a.low, b.low, x.1, y.1, 0);
        } else {
            assert(names.contains(name) == rest.contains(name)) by {
                if rest.contains(name) {
                    assert(names[rest.index_of(name)] == name);
                }
            }
            assert(before.dom().contains(last));
            let d = entry(last, canonical(left, left.nodes@[l].class@, before[last], false, None));
            assert(canonical(left, left.nodes@[l].class@, before[last], false, None) == canonical(
                right,
                right.nodes@[r].class@,
                after[last],
                false,
                None,
            ));
            lemma_xor(a.high, b.high, 0, 0, d.0);
            lemma_xor(a.low, b.low, 0, 0, d.1);
        }
    }
}

/// A changed source shows: where two scripts that an author made are each other's
/// counterparts and are the same but for their source, the report has a blocking difference.
/// The digests of the two sources have to be different, as those of different texts are
/// taken to be.
pub proof fn law_changed_sources_block(
    report: DiffReport,
    left: PlaceStructure,
    right: PlaceStructure,
    reflection: Reflection,
    max: nat,
    pair: int,
)
    requires
        compares(report, left, right, reflection, max),
        left.wf() && left.marked(reflection),
        right.wf() && right.marked(reflection),
        ({
            let pairs = counterparts(compared(left, right, reflection)).pairs;
            let l = pairs[pair].0 as int;
            let r = pairs[pair].1 as int;
            let before = left.nodes@[l];
            let after = right.nodes@[r];
            &&& 0 <= pair < pairs.len()
            &&& is_made_by_author(left, l)
            &&& is_made_by_author(right, r)
            &&& before.class@ == "Script"@ || before.class@ == "LocalScript"@ || before.class@ == "ModuleScript"@
            &&& same_but_for(before, after, "Source"@)
            &&& same_use(left.nodes@, right.nodes@, before.class@)
            &&& before.properties.deep().dom().contains("Source"@)
            &&& before.properties.deep()["Source"@] is String
            &&& after.properties.deep()["Source"@] is String
            &&& before.properties.deep()["Source"@] != after.properties.deep()["Source"@]
            &&& entry("Source"@, value_text(before.properties.deep()["Source"@])) != entry(
                "Source"@,
                value_text(after.properties.deep()["Source"@]),
            )
        }),
    ensures
        report.blocking_differences > 0,
{
    let both = compared(left, right, reflection);
    let matching = counterparts(both);
    let l = matching.pairs[pair].0 as int;
    let r = matching.pairs[pair].1 as int;
    let before = left.nodes@[l].properties.deep();
    let after = right.nodes@[r].properties.deep();
    reveal_strlit("Source");
    reveal_strlit("UniqueId");
    reveal_strlit("HistoryId");
    reveal_strlit("ScriptGuid");
    reveal_strlit("SourceAssetId");
    reveal_strlit("ClockTime");
    reveal_strlit("Technology");
    reveal_strlit("CurrentCamera");
    let names = ordered_keys(before.dom());
    lemma_ordered_keys(before.dom());
    crate::text_map::lemma_ordered_distinct(names);
    assert forall|k: int| 0 <= k < names.len() implies before.dom().contains(#[trigger] names[k]) by {
        assert(names.contains(names[k]));
        assert(names.to_set().contains(names[k]));
    }
    lemma_one_print(left, right, l, r, "Source"@, names);
    lemma_prints_are_own(left, right.nodes@, reflection, l);
    lemma_prints_are_own(right, left.nodes@, reflection, r);
    assert(names.to_set().contains("Source"@));
    assert(names.contains("Source"@));
    let x = entry("Source"@, value_text(before["Source"@]));
    let y = entry("Source"@, value_text(after["Source"@]));
    let a = own_prints(left, l, names).full;
    let b = own_prints(right, r, names).full;
    assert(a != b) by {
        if a == b {
            lemma_xor(a.high, a.high, 0, 0, 0);
            lemma_xor(a.low, a.low, 0, 0, 0);
            lemma_xor(x.0, y.0, 0, 0, 0);
            lemma_xor(x.1, y.1, 0, 0, 0);
        }
    }
    assert(both.left_own[l] == prints(left, right.nodes@, reflection, l));
    assert(both.right_own[r] == prints(right, left.nodes@, reflection, r));
    law_changed_properties_block(report, left, right, reflection, max, pair, "Source"@);
}

} // verus!
