//! The comparison of two places: what differs, and whether a game could tell.

use crate::hashing::{blake3_digest, blake3_hash, push_text, Digest};
use crate::managed_hierarchy::{le_bytes, push_le};
use crate::place::{
    is_child, path_of, placed, property_of, quoted, quoted_text, size_of, value_view, PlaceNode, PlaceStructure,
};
use crate::place_fingerprints::{
    all_prints, canonical, canonical_value, edit_camera, fill_reference_fingerprints, fill_structural_locators,
    fill_subtree_fingerprints, find_edit_cameras, find_unique_ids, fingerprint, references, structural_locators,
    subtrees, unique_ids, ClassProperties, Fingerprint, OwnPrints, PairNumbers,
};
use crate::place_matching::{
    coherent, lemma_matched_mirrored, match_hierarchy, matched, mirrored, pair_noted, within, Matching, MatchingView,
    Sides,
};
use crate::place_values::{
    absence_changes_engine_load, absence_matters, forward_default, hydrated_lighting_default,
    hydrated_service_default, int64_value, is_default_hydrated_lighting_property,
    is_default_hydrated_service_property, is_forward_instance_default, is_int64, is_migrated, is_unique_property,
    migrated, unique_property,
};
use crate::reflection::Reflection;
use crate::text::{decimal, decimal_text, hex, hex_text, join, separated, text_bytes, texts};
use crate::text_map::{lemma_listed_keys, ordered_keys, Plain, TextMap};
use crate::variant::{bool_value, opaque, AttributeValue, AttributeView, Properties, Variant, VariantView};
use crate::{Ref, NO_REF};
use vstd::prelude::*;
use vstd::string::StringSliceAdditionalSpecFns;
use vstd::utf8::is_char_boundary;

verus! {

broadcast use vstd::std_specs::hash::group_hash_axioms;

// ---------------------------------------------------------------------------
// Finding the counterparts

/// Two places with what their instances are.
pub struct Compared {
    pub left: PlaceStructure,
    pub right: PlaceStructure,
    pub left_own: Seq<OwnPrints>,
    pub right_own: Seq<OwnPrints>,
    pub left_locators: Seq<Digest>,
    pub right_locators: Seq<Digest>,
}

/// Two places with what their instances are.
pub open spec fn compared(left: PlaceStructure, right: PlaceStructure, reflection: Reflection) -> Compared {
    let left_own = all_prints(left, right.nodes@, reflection);
    let right_own = all_prints(right, left.nodes@, reflection);
    Compared {
        left,
        right,
        left_own,
        right_own,
        left_locators: structural_locators(left.nodes@, subtrees(left.nodes@, left_own, None)),
        right_locators: structural_locators(right.nodes@, subtrees(right.nodes@, right_own, None)),
    }
}

impl Compared {
    pub open spec fn wf(self) -> bool {
        &&& self.left.wf()
        &&& self.right.wf()
        &&& self.left_own.len() == self.left.nodes@.len()
        &&& self.right_own.len() == self.right.nodes@.len()
        &&& self.left_locators.len() == self.left.nodes@.len()
        &&& self.right_locators.len() == self.right.nodes@.len()
    }

    pub open spec fn left_references(self, pairs: PairNumbers) -> Seq<Fingerprint> {
        references(self.left, self.left_locators, pairs)
    }

    pub open spec fn right_references(self, pairs: PairNumbers) -> Seq<Fingerprint> {
        references(self.right, self.right_locators, pairs)
    }

    /// The matching by subtrees whose references are told apart by pairs.
    pub open spec fn matching_by(self, left: PairNumbers, right: PairNumbers) -> MatchingView {
        matched(
            Sides {
                left: self.left.nodes@,
                right: self.right.nodes@,
                left_prints: subtrees(self.left.nodes@, self.left_own, Some(self.left_references(left))),
                right_prints: subtrees(self.right.nodes@, self.right_own, Some(self.right_references(right))),
            },
        )
    }

    /// How many of the first pairs refer to different instances.
    pub open spec fn disagreements(self, matching: MatchingView, count: nat) -> nat
        decreases count,
    {
        if count == 0 {
            0
        } else {
            let (l, r) = matching.pairs[count - 1];
            let before = self.disagreements(matching, (count - 1) as nat);
            if self.left_references(Some(matching.left_pair))[l as int] != self.right_references(
                Some(matching.right_pair),
            )[r as int] {
                before + 1
            } else {
                before
            }
        }
    }
}

/// The numbers of a mapping as bytes.
pub open spec fn mapping_text(mapping: Seq<Option<usize>>) -> Seq<u8>
    decreases mapping.len(),
{
    if mapping.len() == 0 {
        text_bytes("carbon-place-diff-mapping-v1\0"@)
    } else {
        mapping_text(mapping.drop_last()) + le_bytes(
            match mapping.last() {
                Some(pair) => pair as nat,
                None => u64::MAX as nat,
            },
            8,
        )
    }
}

/// The digest by which a mapping is known again.
pub open spec fn mapping_key(mapping: Seq<Option<usize>>) -> Digest {
    blake3_hash(mapping_text(mapping))
}

fn mapping_digest(mapping: &Vec<Option<usize>>) -> (digest: Digest)
    ensures
        digest == mapping_key(mapping@),
{
    let mut text: Vec<u8> = Vec::new();
    push_text(&mut text, "carbon-place-diff-mapping-v1\0");
    let mut at: usize = 0;
    proof {
        assert(mapping@.take(0) =~= Seq::empty());
        assert(text@ =~= mapping_text(mapping@.take(0)));
    }
    while at < mapping.len()
        invariant
            at <= mapping@.len(),
            text@ == mapping_text(mapping@.take(at as int)),
        decreases mapping@.len() - at,
    {
        proof {
            let next = mapping@.take(at + 1);
            assert(next.drop_last() =~= mapping@.take(at as int));
            assert(next.last() == mapping@[at as int]);
        }
        let number: u64 = match mapping[at] {
            Some(pair) => pair as u64,
            None => u64::MAX,
        };
        push_le(&mut text, number, 8);
        at = at + 1;
    }
    proof {
        assert(mapping@.take(mapping@.len() as int) =~= mapping@);
    }
    blake3_digest(text.as_slice())
}

/// The number of digests.
spec fn digest_count() -> nat {
    0x1_0000_0000_0000_0000_0000_0000_0000_0000nat * 0x1_0000_0000_0000_0000_0000_0000_0000_0000nat
}

/// How many digests are not in a set.
pub closed spec fn unseen(seen: Set<Digest>) -> nat {
    (digest_count() - seen.len()) as nat
}

/// A set of digests grows only so far.
pub proof fn lemma_unseen(seen: Set<Digest>, digest: Digest)
    requires
        seen.finite(),
        !seen.contains(digest),
    ensures
        unseen(seen.insert(digest)) < unseen(seen),
{
    let half = 0x1_0000_0000_0000_0000_0000_0000_0000_0000int;
    let number = |d: Digest| d.0 * half + d.1;
    let more = seen.insert(digest);
    let numbers = more.map(number);
    assert(vstd::relations::injective_on(number, more)) by {
        assert forall|a: Digest, b: Digest| #[trigger] number(a) == #[trigger] number(b) implies a == b by {
            assert(a.0 * half + a.1 == b.0 * half + b.1);
        }
    }
    vstd::set_lib::lemma_map_size(more, numbers, number);
    let total = half * half;
    vstd::set_lib::lemma_int_range(0, total);
    assert(numbers.subset_of(vstd::set_lib::set_int_range(0, total))) by {
        assert forall|n: int| numbers.contains(n) implies vstd::set_lib::set_int_range(0, total).contains(n) by {
            let d = choose|d: Digest| more.contains(d) && number(d) == n;
            assert(0 <= d.0 * half + d.1 < half * half);
        }
    }
    vstd::set_lib::lemma_len_subset(numbers, vstd::set_lib::set_int_range(0, total));
    assert(more.len() <= digest_count());
    assert(more.len() == seen.len() + 1);
}

/// The matching after references were told apart by pairs, again and again,
/// until nothing changes. Where the matchings come round in a circle, the one
/// with the fewest disagreements counts.
pub open spec fn refined(
    both: Compared,
    matching: MatchingView,
    seen: Set<Digest>,
    best: MatchingView,
    best_count: nat,
) -> MatchingView
    decreases unseen(seen),
    when seen.finite()
{
    let count = both.disagreements(matching, matching.pairs.len());
    let (better, better_count) = if count < best_count {
        (matching, count)
    } else {
        (best, best_count)
    };
    let next = both.matching_by(Some(matching.left_pair), Some(matching.right_pair));
    if count == 0 {
        matching
    } else if next.right_pair == matching.right_pair {
        next
    } else if seen.contains(mapping_key(next.right_pair)) {
        better
    } else {
        proof {
            lemma_unseen(seen, mapping_key(next.right_pair));
        }
        refined(both, next, seen.insert(mapping_key(next.right_pair)), better, better_count)
    }
}

/// Which instances of two places are which.
pub open spec fn counterparts(both: Compared) -> MatchingView {
    let first = both.matching_by(None, None);
    refined(both, first, set![mapping_key(first.right_pair)], first, usize::MAX as nat)
}

fn copy_all<T: Copy>(list: &Vec<T>) -> (copy: Vec<T>)
    ensures
        copy@ == list@,
{
    let mut copy: Vec<T> = Vec::new();
    let mut at: usize = 0;
    while at < list.len()
        invariant
            at <= list@.len(),
            copy@ == list@.take(at as int),
        decreases list@.len() - at,
    {
        copy.push(list[at]);
        proof {
            assert(list@.take(at + 1) =~= list@.take(at as int).push(list@[at as int]));
        }
        at = at + 1;
    }
    proof {
        assert(list@.take(list@.len() as int) =~= list@);
    }
    copy
}

fn copy_matching(matching: &Matching) -> (copy: Matching)
    ensures
        copy@ == matching@,
{
    Matching {
        pairs: copy_all(&matching.pairs),
        left_pair: copy_all(&matching.left_pair),
        right_pair: copy_all(&matching.right_pair),
        left_unmatched: copy_all(&matching.left_unmatched),
        right_unmatched: copy_all(&matching.right_unmatched),
        order_changes: copy_all(&matching.order_changes),
    }
}

fn same_numbers(left: &Vec<Option<usize>>, right: &Vec<Option<usize>>) -> (same: bool)
    ensures
        same == (left@ == right@),
{
    if left.len() != right.len() {
        return false;
    }
    let mut at: usize = 0;
    while at < left.len()
        invariant
            at <= left@.len(),
            left@.len() == right@.len(),
            forall|k: int| 0 <= k < at ==> #[trigger] left@[k] == right@[k],
        decreases left@.len() - at,
    {
        let same: bool = match (left[at], right[at]) {
            (Some(a), Some(b)) => a == b,
            (None, None) => true,
            _ => false,
        };
        if !same {
            return false;
        }
        at = at + 1;
    }
    proof {
        assert(left@ =~= right@);
    }
    true
}

fn seen_before(seen: &Vec<Digest>, digest: Digest) -> (found: bool)
    ensures
        found == seen@.contains(digest),
{
    let mut at: usize = 0;
    while at < seen.len()
        invariant
            at <= seen@.len(),
            forall|k: int| 0 <= k < at ==> #[trigger] seen@[k] != digest,
        decreases seen@.len() - at,
    {
        if seen[at].0 == digest.0 && seen[at].1 == digest.1 {
            assert(seen@[at as int] == digest);
            return true;
        }
        at = at + 1;
    }
    false
}

/// The fingerprints that a comparison works with.
struct Workshop<'a> {
    left: &'a PlaceStructure,
    right: &'a PlaceStructure,
    left_own: Vec<OwnPrints>,
    right_own: Vec<OwnPrints>,
    left_locators: Vec<Digest>,
    right_locators: Vec<Digest>,
}

impl<'a> Workshop<'a> {
    spec fn both(self) -> Compared {
        Compared {
            left: *self.left,
            right: *self.right,
            left_own: self.left_own@,
            right_own: self.right_own@,
            left_locators: self.left_locators@,
            right_locators: self.right_locators@,
        }
    }

    fn open(left: &'a PlaceStructure, right: &'a PlaceStructure, reflection: &Reflection) -> (shop: Self)
        requires
            left.wf(),
            right.wf(),
        ensures
            shop.both() == compared(*left, *right, *reflection),
            shop.both().wf(),
            *shop.left == *left,
            *shop.right == *right,
    {
        let left_names: ClassProperties = ClassProperties::gather(left);
        let right_names: ClassProperties = ClassProperties::gather(right);
        let left_own: Vec<OwnPrints> = fingerprint(left, &left_names, &right_names, Ghost(right.nodes@), reflection);
        let right_own: Vec<OwnPrints> = fingerprint(right, &right_names, &left_names, Ghost(left.nodes@), reflection);
        let left_trees: Vec<Fingerprint> = fill_subtree_fingerprints(left, &left_own, None);
        let right_trees: Vec<Fingerprint> = fill_subtree_fingerprints(right, &right_own, None);
        let left_locators: Vec<Digest> = fill_structural_locators(left, &left_trees);
        let right_locators: Vec<Digest> = fill_structural_locators(right, &right_trees);
        Workshop { left, right, left_own, right_own, left_locators, right_locators }
    }

    fn match_by(&self, left_references: &Vec<Fingerprint>, right_references: &Vec<Fingerprint>) -> (matching: Matching)
        requires
            self.both().wf(),
            left_references@.len() == self.left.nodes@.len(),
            right_references@.len() == self.right.nodes@.len(),
        ensures
            matching@ == matched(
                Sides {
                    left: self.left.nodes@,
                    right: self.right.nodes@,
                    left_prints: subtrees(self.left.nodes@, self.left_own@, Some(left_references@)),
                    right_prints: subtrees(self.right.nodes@, self.right_own@, Some(right_references@)),
                },
            ),
            coherent(matching@),
            within(matching@),
            matching.left_pair@.len() == self.left.nodes@.len(),
            matching.right_pair@.len() == self.right.nodes@.len(),
    {
        let left_trees: Vec<Fingerprint> = fill_subtree_fingerprints(
            self.left,
            &self.left_own,
            Some(left_references),
        );
        let right_trees: Vec<Fingerprint> = fill_subtree_fingerprints(
            self.right,
            &self.right_own,
            Some(right_references),
        );
        match_hierarchy(self.left, self.right, &left_trees, &right_trees)
    }

    fn reference_disagreements(
        &self,
        matching: &Matching,
        left_references: &Vec<Fingerprint>,
        right_references: &Vec<Fingerprint>,
    ) -> (count: usize)
        requires
            self.both().wf(),
            coherent(matching@),
            matching.left_pair@.len() == self.left.nodes@.len(),
            matching.right_pair@.len() == self.right.nodes@.len(),
            left_references@ == self.both().left_references(Some(matching.left_pair@)),
            right_references@ == self.both().right_references(Some(matching.right_pair@)),
        ensures
            count == self.both().disagreements(matching@, matching.pairs@.len()),
    {
        let mut count: usize = 0;
        let mut at: usize = 0;
        while at < matching.pairs.len()
            invariant
                at <= matching.pairs@.len(),
                count <= at,
                self.both().wf(),
                coherent(matching@),
                matching.left_pair@.len() == self.left.nodes@.len(),
                matching.right_pair@.len() == self.right.nodes@.len(),
                left_references@ == self.both().left_references(Some(matching.left_pair@)),
                right_references@ == self.both().right_references(Some(matching.right_pair@)),
                count == self.both().disagreements(matching@, at as nat),
            decreases matching.pairs@.len() - at,
        {
            proof {
                assert(pair_noted(matching@, at as int));
            }
            let (l, r): (usize, usize) = matching.pairs[at];
            if left_references[l] != right_references[r] {
                count = count + 1;
            }
            at = at + 1;
        }
        count
    }

    /// Finds which instances of the two places are which.
    fn find_counterparts(&self) -> (matching: Matching)
        requires
            self.both().wf(),
        ensures
            matching@ == counterparts(self.both()),
            coherent(matching@),
            within(matching@),
            matching.left_pair@.len() == self.left.nodes@.len(),
            matching.right_pair@.len() == self.right.nodes@.len(),
    {
        let ghost both = self.both();
        let left_first: Vec<Fingerprint> = fill_reference_fingerprints(self.left, &self.left_locators, None);
        let right_first: Vec<Fingerprint> = fill_reference_fingerprints(self.right, &self.right_locators, None);
        let mut matching: Matching = self.match_by(&left_first, &right_first);
        let mut seen: Vec<Digest> = Vec::new();
        seen.push(mapping_digest(&matching.right_pair));
        let mut best: Matching = copy_matching(&matching);
        let mut best_count: usize = usize::MAX;
        proof {
            assert(seen@.to_set() =~= set![mapping_key(matching.right_pair@)]) by {
                assert(seen@[0] == mapping_key(matching.right_pair@));
                assert forall|d: Digest| seen@.to_set().contains(d) == set![mapping_key(
                    matching.right_pair@,
                )].contains(d) by {
                    if seen@.contains(d) {
                        let k = seen@.index_of(d);
                    }
                }
            }
        }
        loop
            invariant
                both == self.both(),
                both.wf(),
                coherent(matching@),
                within(matching@),
                matching.left_pair@.len() == self.left.nodes@.len(),
                matching.right_pair@.len() == self.right.nodes@.len(),
                coherent(best@),
                within(best@),
                best.left_pair@.len() == self.left.nodes@.len(),
                best.right_pair@.len() == self.right.nodes@.len(),
                counterparts(both) == refined(both, matching@, seen@.to_set(), best@, best_count as nat),
            decreases unseen(seen@.to_set()),
        {
            let left_references: Vec<Fingerprint> = fill_reference_fingerprints(
                self.left,
                &self.left_locators,
                Some(&matching.left_pair),
            );
            let right_references: Vec<Fingerprint> = fill_reference_fingerprints(
                self.right,
                &self.right_locators,
                Some(&matching.right_pair),
            );
            let count: usize = self.reference_disagreements(&matching, &left_references, &right_references);
            if count < best_count {
                best_count = count;
                best = copy_matching(&matching);
            }
            if count == 0 {
                return matching;
            }
            let next: Matching = self.match_by(&left_references, &right_references);
            if same_numbers(&next.right_pair, &matching.right_pair) {
                return next;
            }
            let digest: Digest = mapping_digest(&next.right_pair);
            if seen_before(&seen, digest) {
                proof {
                    assert(seen@.to_set().contains(digest));
                }
                return best;
            }
            proof {
                assert(!seen@.to_set().contains(digest));
                lemma_unseen(seen@.to_set(), digest);
                assert(seen@.push(digest).to_set() =~= seen@.to_set().insert(digest)) by {
                    crate::hierarchy::lemma_taken_set(seen@.push(digest), seen@.len() as int);
                    assert(seen@.push(digest).take(seen@.len() as int) =~= seen@);
                    assert(seen@.push(digest).take(seen@.len() as int + 1) =~= seen@.push(digest));
                }
            }
            seen.push(digest);
            matching = next;
        }
    }
}

// ---------------------------------------------------------------------------
// The report

/// Whether a game could tell a difference.
#[derive(Clone, Copy, Debug, PartialEq, Eq, Structural)]
pub enum Impact {
    PotentialGameplay,
    NonGameplay,
}

/// One difference between two places.
#[derive(Debug)]
pub struct Difference {
    pub impact: Impact,
    pub kind: String,
    pub path: String,
    pub property: Option<String>,
    pub before: Option<String>,
    pub after: Option<String>,
    pub reason: String,
}

#[verifier::ext_equal]
pub struct DifferenceView {
    pub impact: Impact,
    pub kind: Seq<char>,
    pub path: Seq<char>,
    pub property: Option<Seq<char>>,
    pub before: Option<Seq<char>>,
    pub after: Option<Seq<char>>,
    pub reason: Seq<char>,
}

pub open spec fn opt_text(text: Option<String>) -> Option<Seq<char>> {
    match text {
        Some(text) => Some(text@),
        None => None,
    }
}

impl View for Difference {
    type V = DifferenceView;

    open spec fn view(&self) -> DifferenceView {
        DifferenceView {
            impact: self.impact,
            kind: self.kind@,
            path: self.path@,
            property: opt_text(self.property),
            before: opt_text(self.before),
            after: opt_text(self.after),
            reason: self.reason@,
        }
    }
}

/// What differs between two places.
#[derive(Debug)]
pub struct DiffReport {
    pub before: String,
    pub after: String,
    pub before_instances: usize,
    pub after_instances: usize,
    pub matched_instances: usize,
    pub added_instances: usize,
    pub removed_instances: usize,
    pub blocking_differences: usize,
    pub non_gameplay_differences: usize,
    pub details_truncated: bool,
    pub differences: Vec<Difference>,
}

impl DiffReport {
    /// Whether there is a difference that a game could tell.
    pub fn has_blockers(&self) -> (has: bool)
        ensures
            has == (self.blocking_differences > 0),
    {
        self.blocking_differences > 0
    }
}

/// What differences stand for.
pub open spec fn differences_view(list: Seq<Difference>) -> Seq<DifferenceView> {
    list.map_values(|difference: Difference| difference@)
}

/// How many differences have an impact.
pub open spec fn with_impact(list: Seq<DifferenceView>, impact: Impact) -> nat
    decreases list.len(),
{
    if list.len() == 0 {
        0
    } else {
        with_impact(list.drop_last(), impact) + if list.last().impact == impact {
            1nat
        } else {
            0nat
        }
    }
}

/// The first differences, as many as are wanted.
pub open spec fn details(list: Seq<DifferenceView>, max: nat) -> Seq<DifferenceView> {
    if list.len() <= max {
        list
    } else {
        list.take(max as int)
    }
}

/// A report counts all differences and holds the first of them.
pub open spec fn reports(report: DiffReport, list: Seq<DifferenceView>, max: nat) -> bool {
    &&& report.blocking_differences == crate::place::held(with_impact(list, Impact::PotentialGameplay))
    &&& report.non_gameplay_differences == crate::place::held(with_impact(list, Impact::NonGameplay))
    &&& differences_view(report.differences@) == details(list, max)
    &&& report.details_truncated == (list.len() > max)
}

fn push_difference(report: &mut DiffReport, max_details: usize, difference: Difference, Ghost(list): Ghost<
    Seq<DifferenceView>,
>)
    requires
        reports(*old(report), list, max_details as nat),
    ensures
        reports(*final(report), list.push(difference@), max_details as nat),
        same_totals(*old(report), *final(report)),
{
    let ghost view = difference@;
    let ghost before = *report;
    match difference.impact {
        Impact::PotentialGameplay => {
            report.blocking_differences = report.blocking_differences.saturating_add(1);
        },
        Impact::NonGameplay => {
            report.non_gameplay_differences = report.non_gameplay_differences.saturating_add(1);
        },
    }
    proof {
        assert(list.push(view).drop_last() =~= list);
        assert(differences_view(before.differences@).len() == before.differences@.len());
    }
    if report.differences.len() < max_details {
        report.differences.push(difference);
        proof {
            assert(differences_view(report.differences@) =~= differences_view(before.differences@).push(view));
            assert(details(list.push(view), max_details as nat) =~= details(list, max_details as nat).push(view));
        }
    } else {
        report.details_truncated = true;
        proof {
            assert(details(list.push(view), max_details as nat) =~= details(list, max_details as nat));
        }
    }
}

/// What a report says of the places as a whole is left alone.
pub open spec fn same_totals(a: DiffReport, b: DiffReport) -> bool {
    &&& a.before == b.before
    &&& a.after == b.after
    &&& a.before_instances == b.before_instances
    &&& a.after_instances == b.after_instances
    &&& a.matched_instances == b.matched_instances
    &&& a.added_instances == b.added_instances
    &&& a.removed_instances == b.removed_instances
}

// ---------------------------------------------------------------------------
// Metadata, identifiers and order

pub open spec fn find_text(map: Map<Seq<char>, Seq<char>>, key: Seq<char>) -> Option<Seq<char>> {
    if map.dom().contains(key) {
        Some(map[key])
    } else {
        None
    }
}

/// The differences of the metadata of two files, under the listed names.
pub open spec fn metadata_differences(
    left: Map<Seq<char>, Seq<char>>,
    right: Map<Seq<char>, Seq<char>>,
    keys: Seq<Seq<char>>,
) -> Seq<DifferenceView>
    decreases keys.len(),
{
    if keys.len() == 0 {
        Seq::empty()
    } else {
        let before = metadata_differences(left, right, keys.drop_last());
        if find_text(left, keys.last()) == find_text(right, keys.last()) {
            before
        } else {
            before.push(
                DifferenceView {
                    impact: Impact::NonGameplay,
                    kind: "file_metadata"@,
                    path: "<rbxl META>"@,
                    property: Some(keys.last()),
                    before: find_text(left, keys.last()),
                    after: find_text(right, keys.last()),
                    reason: "binary file provenance does not affect gameplay"@,
                },
            )
        }
    }
}

fn metadata_value(map: &TextMap<String>, key: &str) -> (value: Option<String>)
    ensures
        opt_text(value) == find_text(map.deep(), key@),
{
    proof {
        assert(map.deep().dom() =~= map@.dom());
    }
    match map.get(key) {
        Some(value) => Some(value.clone()),
        None => None,
    }
}

fn same_optional(left: &Option<String>, right: &Option<String>) -> (same: bool)
    ensures
        same == (opt_text(*left) == opt_text(*right)),
{
    match (left, right) {
        (Some(left), Some(right)) => left.as_str().eq(right.as_str()),
        (None, None) => true,
        _ => false,
    }
}

/// The names that either of two maps has.
fn all_names<V, W>(left: &TextMap<V>, right: &TextMap<W>) -> (names: TextMap<bool>)
    ensures
        names@.dom() == left@.dom().union(right@.dom()),
{
    let mut names: TextMap<bool> = TextMap::new();
    let left_len: usize = left.len();
    let mut at: usize = 0;
    proof {
        assert(left.keys().take(0).to_set() =~= Set::empty());
        assert(names@.dom() =~= left.keys().take(0).to_set());
    }
    while at < left_len
        invariant
            at <= left_len,
            left_len == left.keys().len(),
            left.listed(),
            names@.dom() == left.keys().take(at as int).to_set(),
        decreases left_len - at,
    {
        names.insert(left.key_at(at).clone(), true);
        proof {
            crate::hierarchy::lemma_taken_set(left.keys(), at as int);
            assert(names@.dom() =~= left.keys().take(at + 1).to_set());
        }
        at = at + 1;
    }
    proof {
        assert(left.keys().take(left_len as int) =~= left.keys());
    }
    let right_len: usize = right.len();
    let mut next: usize = 0;
    proof {
        assert(right.keys().take(0).to_set() =~= Set::empty());
        assert(names@.dom() =~= left@.dom().union(right.keys().take(0).to_set()));
    }
    while next < right_len
        invariant
            next <= right_len,
            right_len == right.keys().len(),
            right.listed(),
            names@.dom() == left@.dom().union(right.keys().take(next as int).to_set()),
        decreases right_len - next,
    {
        names.insert(right.key_at(next).clone(), true);
        proof {
            crate::hierarchy::lemma_taken_set(right.keys(), next as int);
            assert(names@.dom() =~= left@.dom().union(right.keys().take(next + 1).to_set()));
        }
        next = next + 1;
    }
    proof {
        assert(right.keys().take(right_len as int) =~= right.keys());
    }
    names
}

fn report_metadata(
    left: &TextMap<String>,
    right: &TextMap<String>,
    report: &mut DiffReport,
    max_details: usize,
    Ghost(list): Ghost<Seq<DifferenceView>>,
)
    requires
        reports(*old(report), list, max_details as nat),
    ensures
        reports(
            *final(report),
            list + metadata_differences(
                left.deep(),
                right.deep(),
                ordered_keys(left.deep().dom().union(right.deep().dom())),
            ),
            max_details as nat,
        ),
        same_totals(*old(report), *final(report)),
{
    let names: TextMap<bool> = all_names(left, right);
    let len: usize = names.len();
    let ghost keys = names.keys();
    proof {
        lemma_listed_keys(names);
        assert(left.deep().dom() =~= left@.dom());
        assert(right.deep().dom() =~= right@.dom());
        assert(keys.take(0) =~= Seq::empty());
        assert(list + metadata_differences(left.deep(), right.deep(), keys.take(0)) =~= list);
    }
    let mut at: usize = 0;
    while at < len
        invariant
            at <= len,
            len == keys.len(),
            keys == names.keys(),
            names.listed(),
            reports(
                *report,
                list + metadata_differences(left.deep(), right.deep(), keys.take(at as int)),
                max_details as nat,
            ),
            same_totals(*old(report), *report),
        decreases len - at,
    {
        let ghost done = metadata_differences(left.deep(), right.deep(), keys.take(at as int));
        proof {
            assert(keys.take(at + 1).drop_last() =~= keys.take(at as int));
        }
        let key: &str = names.key_at(at).as_str();
        let before: Option<String> = metadata_value(left, key);
        let after: Option<String> = metadata_value(right, key);
        if !same_optional(&before, &after) {
            let difference: Difference = Difference {
                impact: Impact::NonGameplay,
                kind: "file_metadata".to_owned(),
                path: "<rbxl META>".to_owned(),
                property: Some(key.to_owned()),
                before,
                after,
                reason: "binary file provenance does not affect gameplay".to_owned(),
            };
            let ghost view = difference@;
            push_difference(report, max_details, difference, Ghost(list + done));
            proof {
                assert((list + done).push(view) =~= list + done.push(view));
            }
        }
        at = at + 1;
    }
    proof {
        assert(keys.take(len as int) =~= keys);
    }
}

/// A number of serialized values in words.
pub open spec fn serialized_count(count: nat) -> Seq<char> {
    decimal(count) + " serialized values"@
}

/// The difference between the identifiers of two places.
pub open spec fn identifier_differences(left: Fingerprint, right: Fingerprint) -> Seq<DifferenceView> {
    if left == right {
        Seq::empty()
    } else {
        seq![
            DifferenceView {
                impact: Impact::NonGameplay,
                kind: "unique_id"@,
                path: "game/**"@,
                property: Some("UniqueId/HistoryId"@),
                before: Some(serialized_count(left.count as nat)),
                after: Some(serialized_count(right.count as nat)),
                reason: "UniqueId representation is explicitly non-gameplay"@,
            },
        ]
    }
}

fn count_text(count: u64, words: &str) -> (text: String)
    ensures
        text@ == decimal(count as nat) + words@,
{
    let mut text: String = decimal_text(count);
    text.append(words);
    text
}

fn report_identifiers(
    left: Fingerprint,
    right: Fingerprint,
    report: &mut DiffReport,
    max_details: usize,
    Ghost(list): Ghost<Seq<DifferenceView>>,
)
    requires
        reports(*old(report), list, max_details as nat),
    ensures
        reports(*final(report), list + identifier_differences(left, right), max_details as nat),
        same_totals(*old(report), *final(report)),
{
    if left == right {
        proof {
            assert(list + identifier_differences(left, right) =~= list);
        }
        return;
    }
    let difference: Difference = Difference {
        impact: Impact::NonGameplay,
        kind: "unique_id".to_owned(),
        path: "game/**".to_owned(),
        property: Some("UniqueId/HistoryId".to_owned()),
        before: Some(count_text(left.count as u64, " serialized values")),
        after: Some(count_text(right.count as u64, " serialized values")),
        reason: "UniqueId representation is explicitly non-gameplay".to_owned(),
    };
    let ghost view = difference@;
    push_difference(report, max_details, difference, Ghost(list));
    proof {
        assert(list.push(view) =~= list + identifier_differences(left, right));
    }
}

/// The difference between the orders of the children of a pair.
pub open spec fn order_difference(left: PlaceStructure, pair: (usize, usize)) -> DifferenceView {
    DifferenceView {
        impact: Impact::NonGameplay,
        kind: "instance_order"@,
        path: path_of(left.nodes@, pair.0 as int),
        property: None,
        before: None,
        after: None,
        reason: "sibling ordering is explicitly non-gameplay"@,
    }
}

pub open spec fn order_differences(left: PlaceStructure, changes: Seq<(usize, usize)>) -> Seq<DifferenceView> {
    changes.map_values(|pair: (usize, usize)| order_difference(left, pair))
}

fn report_order(
    left: &PlaceStructure,
    changes: &Vec<(usize, usize)>,
    report: &mut DiffReport,
    max_details: usize,
    Ghost(list): Ghost<Seq<DifferenceView>>,
)
    requires
        left.wf(),
        forall|k: int| 0 <= k < changes@.len() ==> (#[trigger] changes@[k]).0 < left.nodes@.len(),
        reports(*old(report), list, max_details as nat),
    ensures
        reports(*final(report), list + order_differences(*left, changes@), max_details as nat),
        same_totals(*old(report), *final(report)),
{
    let mut at: usize = 0;
    proof {
        assert(list + order_differences(*left, changes@).take(0) =~= list);
    }
    while at < changes.len()
        invariant
            at <= changes@.len(),
            left.wf(),
            forall|k: int| 0 <= k < changes@.len() ==> (#[trigger] changes@[k]).0 < left.nodes@.len(),
            reports(*report, list + order_differences(*left, changes@).take(at as int), max_details as nat),
            same_totals(*old(report), *report),
        decreases changes@.len() - at,
    {
        let ghost all = order_differences(*left, changes@);
        let difference: Difference = Difference {
            impact: Impact::NonGameplay,
            kind: "instance_order".to_owned(),
            path: left.display_path(changes[at].0),
            property: None,
            before: None,
            after: None,
            reason: "sibling ordering is explicitly non-gameplay".to_owned(),
        };
        let ghost view = difference@;
        push_difference(report, max_details, difference, Ghost(list + all.take(at as int)));
        proof {
            assert((list + all.take(at as int)).push(view) =~= list + all.take(at + 1));
        }
        at = at + 1;
    }
    proof {
        assert(order_differences(*left, changes@).take(changes@.len() as int) =~= order_differences(*left, changes@));
    }
}

// ---------------------------------------------------------------------------
// Added and removed instances

/// A service right below the root.
pub open spec fn direct_service(place: PlaceStructure, reflection: Reflection, at: int) -> bool {
    place.nodes@[at].parent == Some(0usize) && reflection.service(place.nodes@[at].class@)
}

/// A property of a service that Studio writes to a place without the service.
pub open spec fn shell_property(
    place: PlaceStructure,
    reflection: Reflection,
    class: Seq<char>,
    name: Seq<char>,
    value: VariantView,
) -> bool {
    ||| unique_property(name, value)
    ||| forward_default(name, value)
    ||| hydrated_lighting_default(class, name, value)
    ||| hydrated_service_default(class, name, value)
    ||| match reflection.default_of(class, name) {
        Some(default) => canonical(place, class, value, true, None) == canonical(place, class, default, true, None),
        None => value == VariantView::Ref(NO_REF),
    }
}

/// A service that the engine makes by itself: it holds nothing that a game sees.
pub open spec fn service_shell(place: PlaceStructure, reflection: Reflection, at: int) -> bool {
    let node = place.nodes@[at];
    &&& direct_service(place, reflection, at)
    &&& forall|k: int| 0 <= k < node.children@.len() ==> place.runtime(#[trigger] node.children@[k] as int)
    &&& forall|name: Seq<char>| #[trigger]
        node.properties.deep().dom().contains(name) ==> shell_property(
            place,
            reflection,
            node.class@,
            name,
            node.properties.deep()[name],
        )
}

fn is_shell_property(
    place: &PlaceStructure,
    reflection: &Reflection,
    class: &str,
    name: &str,
    value: &Variant,
) -> (shell: bool)
    requires
        place.wf(),
    ensures
        shell == shell_property(*place, *reflection, class@, name@, value@),
{
    if is_unique_property(name, value) || is_forward_instance_default(name, value)
        || is_default_hydrated_lighting_property(class, name, value) || is_default_hydrated_service_property(
        class,
        name,
        value,
    ) {
        return true;
    }
    match reflection.reflection_default(class, name) {
        Some(default) => {
            let own: Vec<u8> = canonical_value(place, class, value, true, None);
            let usual: Vec<u8> = canonical_value(place, class, default, true, None);
            crate::text::same_bytes(own.as_slice(), usual.as_slice())
        },
        None => match value {
            Variant::Ref(target) => *target == NO_REF,
            _ => false,
        },
    }
}

fn is_engine_default_service_shell(place: &PlaceStructure, reflection: &Reflection, at: usize) -> (shell: bool)
    requires
        place.wf(),
        at < place.nodes@.len(),
    ensures
        shell == service_shell(*place, *reflection, at as int),
{
    let node: &PlaceNode = &place.nodes[at];
    let direct: bool = match node.parent {
        Some(parent) => parent == 0,
        None => false,
    };
    if !direct || !reflection.is_service(node.class.as_str()) {
        return false;
    }
    let mut k: usize = 0;
    while k < node.children.len()
        invariant
            k <= node.children@.len(),
            place.wf(),
            at < place.nodes@.len(),
            *node == place.nodes@[at as int],
            forall|j: int| 0 <= j < k ==> place.runtime(#[trigger] node.children@[j] as int),
        decreases node.children@.len() - k,
    {
        proof {
            assert(placed(place.nodes@, at as int));
            assert(is_child(place.nodes@, at as int, k as int, node.children@[k as int] as int));
        }
        if !place.is_studio_runtime_subtree(node.children[k]) {
            assert(!place.runtime(node.children@[k as int] as int));
            return false;
        }
        k = k + 1;
    }
    let properties: &Properties = &node.properties;
    let len: usize = properties.len();
    proof {
        assert(properties.deep().dom() =~= properties@.dom());
    }
    let mut next: usize = 0;
    while next < len
        invariant
            next <= len,
            place.wf(),
            at < place.nodes@.len(),
            *node == place.nodes@[at as int],
            *properties == node.properties,
            len == properties.keys().len(),
            properties.listed(),
            properties.deep().dom() == properties@.dom(),
            forall|j: int|
                0 <= j < next ==> shell_property(
                    *place,
                    *reflection,
                    node.class@,
                    #[trigger] properties.keys()[j],
                    properties.deep()[properties.keys()[j]],
                ),
        decreases len - next,
    {
        proof {
            let name = properties.keys()[next as int];
            assert(properties.keys().contains(name));
            assert(properties.keys().to_set().contains(name));
            assert(properties.deep().dom().contains(name));
            assert(properties.deep()[name] == properties@[name]@);
        }
        if !is_shell_property(
            place,
            reflection,
            node.class.as_str(),
            properties.key_at(next).as_str(),
            properties.value_at(next),
        ) {
            return false;
        }
        next = next + 1;
    }
    proof {
        assert forall|name: Seq<char>| #[trigger] properties.deep().dom().contains(name) implies shell_property(
            *place,
            *reflection,
            node.class@,
            name,
            properties.deep()[name],
        ) by {
            assert(properties.keys().to_set().contains(name));
            let j = properties.keys().index_of(name);
            assert(properties.keys()[j] == name);
        }
    }
    true
}

/// An instance that one place has and the other has not.
pub open spec fn lone_difference(
    place: PlaceStructure,
    reflection: Reflection,
    at: int,
    removed: bool,
) -> DifferenceView {
    let shell = service_shell(place, reflection, at);
    let unseen_by_game = shell || place.runtime(at) || edit_camera(place, at);
    let size = Some(decimal(crate::place::held(size_of(place.nodes@, at)) as nat) + " instance subtree"@);
    DifferenceView {
        impact: if unseen_by_game {
            Impact::NonGameplay
        } else {
            Impact::PotentialGameplay
        },
        kind: if removed {
            "instance_removed"@
        } else {
            "instance_added"@
        },
        path: path_of(place.nodes@, at),
        property: None,
        before: if removed {
            size
        } else {
            None
        },
        after: if removed {
            None
        } else {
            size
        },
        reason: if shell {
            "an empty engine-default service shell is recreated by Studio"@
        } else if unseen_by_game {
            "Studio runtime/edit-camera state does not affect gameplay"@
        } else if removed {
            "authored instance removal can affect gameplay"@
        } else {
            "authored instance addition can affect gameplay"@
        },
    }
}

pub open spec fn lone_differences(
    place: PlaceStructure,
    reflection: Reflection,
    unmatched: Seq<usize>,
    removed: bool,
) -> Seq<DifferenceView> {
    unmatched.map_values(|at: usize| lone_difference(place, reflection, at as int, removed))
}

fn find_lone_difference(
    place: &PlaceStructure,
    reflection: &Reflection,
    cameras: &Vec<bool>,
    at: usize,
    removed: bool,
) -> (difference: Difference)
    requires
        place.wf(),
        at < place.nodes@.len(),
        cameras@.len() == place.nodes@.len(),
        forall|k: int| 0 <= k < cameras@.len() ==> #[trigger] cameras@[k] == edit_camera(*place, k),
    ensures
        difference@ == lone_difference(*place, *reflection, at as int, removed),
{
    let shell: bool = is_engine_default_service_shell(place, reflection, at);
    let unseen_by_game: bool = shell || place.is_studio_runtime_subtree(at) || cameras[at];
    let size: Option<String> = Some(count_text(place.subtree_size(at) as u64, " instance subtree"));
    let impact: Impact = if unseen_by_game {
        Impact::NonGameplay
    } else {
        Impact::PotentialGameplay
    };
    let reason: &str = if shell {
        "an empty engine-default service shell is recreated by Studio"
    } else if unseen_by_game {
        "Studio runtime/edit-camera state does not affect gameplay"
    } else if removed {
        "authored instance removal can affect gameplay"
    } else {
        "authored instance addition can affect gameplay"
    };
    if removed {
        Difference {
            impact,
            kind: "instance_removed".to_owned(),
            path: place.display_path(at),
            property: None,
            before: size,
            after: None,
            reason: reason.to_owned(),
        }
    } else {
        Difference {
            impact,
            kind: "instance_added".to_owned(),
            path: place.display_path(at),
            property: None,
            before: None,
            after: size,
            reason: reason.to_owned(),
        }
    }
}

fn report_lone(
    place: &PlaceStructure,
    reflection: &Reflection,
    cameras: &Vec<bool>,
    unmatched: &Vec<usize>,
    removed: bool,
    report: &mut DiffReport,
    max_details: usize,
    Ghost(list): Ghost<Seq<DifferenceView>>,
)
    requires
        place.wf(),
        forall|k: int| 0 <= k < unmatched@.len() ==> (#[trigger] unmatched@[k]) < place.nodes@.len(),
        cameras@.len() == place.nodes@.len(),
        forall|k: int| 0 <= k < cameras@.len() ==> #[trigger] cameras@[k] == edit_camera(*place, k),
        reports(*old(report), list, max_details as nat),
    ensures
        reports(
            *final(report),
            list + lone_differences(*place, *reflection, unmatched@, removed),
            max_details as nat,
        ),
        same_totals(*old(report), *final(report)),
{
    let ghost all = lone_differences(*place, *reflection, unmatched@, removed);
    let mut at: usize = 0;
    proof {
        assert(list + all.take(0) =~= list);
    }
    while at < unmatched.len()
        invariant
            at <= unmatched@.len(),
            place.wf(),
            all == lone_differences(*place, *reflection, unmatched@, removed),
            forall|k: int| 0 <= k < unmatched@.len() ==> (#[trigger] unmatched@[k]) < place.nodes@.len(),
            cameras@.len() == place.nodes@.len(),
            forall|k: int| 0 <= k < cameras@.len() ==> #[trigger] cameras@[k] == edit_camera(*place, k),
            reports(*report, list + all.take(at as int), max_details as nat),
            same_totals(*old(report), *report),
        decreases unmatched@.len() - at,
    {
        let difference: Difference = find_lone_difference(place, reflection, cameras, unmatched[at], removed);
        let ghost view = difference@;
        push_difference(report, max_details, difference, Ghost(list + all.take(at as int)));
        proof {
            assert(all[at as int] == view);
            assert((list + all.take(at as int)).push(view) =~= list + all.take(at + 1));
        }
        at = at + 1;
    }
    proof {
        assert(all.take(unmatched@.len() as int) =~= all);
    }
}

// ---------------------------------------------------------------------------
// Properties of paired instances

/// A value as bytes, where there is one.
pub open spec fn value_bytes(
    place: PlaceStructure,
    class: Seq<char>,
    value: Option<VariantView>,
    pairs: Seq<Option<usize>>,
) -> Seq<u8> {
    match value {
        Some(value) => canonical(place, class, value, false, Some(pairs)),
        None => text_bytes("<absent>"@),
    }
}

/// What the game sees of a value.
pub open spec fn game_bytes(
    place: PlaceStructure,
    class: Seq<char>,
    name: Seq<char>,
    value: Option<VariantView>,
    pairs: Seq<Option<usize>>,
) -> Option<Seq<u8>> {
    match value {
        Some(value) => if unique_property(name, value) {
            None
        } else {
            Some(canonical(place, class, value, true, Some(pairs)))
        },
        None => None,
    }
}

/// The value of a property, or the default that stands for it.
pub open spec fn effective_value(
    reflection: Reflection,
    class: Seq<char>,
    properties: Map<Seq<char>, VariantView>,
    name: Seq<char>,
    allow_default: bool,
) -> Option<VariantView> {
    match property_of(properties, name) {
        Some(value) => Some(value),
        None => if allow_default {
            reflection.default_of(class, name)
        } else {
            None
        },
    }
}

fn find_effective<'a>(
    reflection: &'a Reflection,
    class: &str,
    properties: &'a Properties,
    name: &str,
    allow_default: bool,
) -> (value: Option<&'a Variant>)
    ensures
        value_view(value) == effective_value(*reflection, class@, properties.deep(), name@, allow_default),
{
    match crate::place::find_property(properties, name) {
        Some(value) => Some(value),
        None => if allow_default {
            reflection.reflection_default(class, name)
        } else {
            None
        },
    }
}

pub open spec fn script_class(class: Seq<char>) -> bool {
    class == "Script"@ || class == "LocalScript"@ || class == "ModuleScript"@
}

/// Whether a class is one of scripts.
pub fn is_script_class(class: &str) -> (script: bool)
    ensures
        script == script_class(class@),
{
    class.eq("Script") || class.eq("LocalScript") || class.eq("ModuleScript")
}

/// The lighting technology that a migrated place had when it was loaded, as the
/// bytes of its number.
pub open spec fn original_technology(properties: Map<Seq<char>, VariantView>) -> Option<Seq<u8>> {
    match property_of(properties, "Attributes"@) {
        Some(VariantView::Attributes(attributes)) => if migrated(attributes) && attributes.dom().contains(
            "RBX_OriginalTechnologyOnFileLoad"@,
        ) {
            match attributes["RBX_OriginalTechnologyOnFileLoad"@] {
                AttributeView::Opaque { kind, bytes } => if kind == "Int32"@ && bytes.len() == 4 && bytes[3] < 0x80 {
                    Some(bytes)
                } else {
                    None
                },
                _ => None,
            }
        } else {
            None
        },
        _ => None,
    }
}

fn lighting_original_technology(properties: &Properties) -> (technology: Option<Vec<u8>>)
    ensures
        match original_technology(properties.deep()) {
            Some(expected) => technology matches Some(found) && found@ == expected,
            None => technology is None,
        },
{
    match crate::place::find_property(properties, "Attributes") {
        Some(value) => match value {
            Variant::Attributes(attributes) => {
                proof {
                    assert(attributes.deep().dom() =~= attributes@.dom());
                }
                if !is_migrated(attributes) {
                    return None;
                }
                match attributes.get("RBX_OriginalTechnologyOnFileLoad") {
                    Some(value) => match value {
                        AttributeValue::Opaque { kind, bytes } => {
                            if kind.as_str().eq("Int32") && bytes.len() == 4 && bytes[3] < 0x80 {
                                Some(crate::text::copy_bytes(bytes.as_slice()))
                            } else {
                                None
                            }
                        },
                        _ => None,
                    },
                    None => None,
                }
            },
            _ => None,
        },
        None => None,
    }
}

/// Whether a place's files write the same state in two ways.
pub open spec fn engine_equivalent(
    left: PlaceStructure,
    right: PlaceStructure,
    l: int,
    r: int,
    name: Seq<char>,
    left_value: Option<VariantView>,
    right_value: Option<VariantView>,
) -> bool {
    let class = left.nodes@[l].class@;
    let left_properties = left.nodes@[l].properties.deep();
    let right_properties = right.nodes@[r].properties.deep();
    ||| script_class(class) && name == "ScriptGuid"@
    ||| script_class(class) && match (left_value, right_value) {
        (Some(value), None) => forward_default(name, value),
        (None, Some(value)) => forward_default(name, value),
        _ => false,
    }
    ||| (class == "Folder"@ || script_class(class)) && name == "SourceAssetId"@ && ((left_value == Some(
        int64_value(u64::MAX),
    ) && right_value == Some(int64_value(0))) || (left_value == Some(int64_value(0)) && right_value == Some(
        int64_value(u64::MAX),
    )))
    ||| class == "Lighting"@ && name == "ClockTime"@ && left.clock_agrees@.contains(left.nodes@[l].referent)
        && right.clock_agrees@.contains(right.nodes@[r].referent)
    ||| class == "Lighting"@ && name != "ClockTime"@ && name == "Technology"@ && (original_technology(
        left_properties,
    ) matches Some(original) && original_technology(right_properties) == Some(original) && {
        let left_original = left_value == Some(opaque("Enum"@, original));
        let right_original = right_value == Some(opaque("Enum"@, original));
        ||| left.managed_worktree && !right.managed_worktree && !left_original && right_original
        ||| !left.managed_worktree && right.managed_worktree && left_original && !right_original
    })
}

fn is_technology(value: Option<&Variant>, technology: &Vec<u8>) -> (same: bool)
    ensures
        same == (value_view(value) == Some(opaque("Enum"@, technology@))),
{
    match value {
        Some(value) => match value {
            Variant::Opaque { kind, bytes } => kind.as_str().eq("Enum") && crate::text::same_bytes(
                bytes.as_slice(),
                technology.as_slice(),
            ),
            _ => false,
        },
        None => false,
    }
}

fn is_asset(value: Option<&Variant>, bits: u64) -> (same: bool)
    ensures
        same == (value_view(value) == Some(int64_value(bits))),
{
    match value {
        Some(value) => is_int64(value, bits),
        None => false,
    }
}

fn technology_equivalent(
    left: &PlaceStructure,
    right: &PlaceStructure,
    left_properties: &Properties,
    right_properties: &Properties,
    left_value: Option<&Variant>,
    right_value: Option<&Variant>,
) -> (same: bool)
    ensures
        same == (original_technology(left_properties.deep()) matches Some(original) && original_technology(
            right_properties.deep(),
        ) == Some(original) && {
            let left_original = value_view(left_value) == Some(opaque("Enum"@, original));
            let right_original = value_view(right_value) == Some(opaque("Enum"@, original));
            ||| left.managed_worktree && !right.managed_worktree && !left_original && right_original
            ||| !left.managed_worktree && right.managed_worktree && left_original && !right_original
        }),
{
    match (lighting_original_technology(left_properties), lighting_original_technology(right_properties)) {
        (Some(original), Some(other)) => {
            if !crate::text::same_bytes(original.as_slice(), other.as_slice()) {
                return false;
            }
            let left_original: bool = is_technology(left_value, &original);
            let right_original: bool = is_technology(right_value, &original);
            (left.managed_worktree && !right.managed_worktree && !left_original && right_original) || (
            !left.managed_worktree && right.managed_worktree && left_original && !right_original)
        },
        _ => false,
    }
}

fn engine_serialization_equivalent(
    left: &PlaceStructure,
    right: &PlaceStructure,
    l: usize,
    r: usize,
    name: &str,
    left_value: Option<&Variant>,
    right_value: Option<&Variant>,
) -> (same: bool)
    requires
        l < left.nodes@.len(),
        r < right.nodes@.len(),
    ensures
        same == engine_equivalent(
            *left,
            *right,
            l as int,
            r as int,
            name@,
            value_view(left_value),
            value_view(right_value),
        ),
{
    let class: &str = left.nodes[l].class.as_str();
    let script: bool = is_script_class(class);
    let serialized_default: bool = match (left_value, right_value) {
        (Some(value), None) => is_forward_instance_default(name, value),
        (None, Some(value)) => is_forward_instance_default(name, value),
        _ => false,
    };
    let assets: bool = (is_asset(left_value, u64::MAX) && is_asset(right_value, 0)) || (is_asset(left_value, 0)
        && is_asset(right_value, u64::MAX));
    let clocks: bool = left.clock_agrees.contains(&left.nodes[l].referent) && right.clock_agrees.contains(
        &right.nodes[r].referent,
    );
    let technology: bool = technology_equivalent(
        left,
        right,
        &left.nodes[l].properties,
        &right.nodes[r].properties,
        left_value,
        right_value,
    );
    (script && name.eq("ScriptGuid")) || (script && serialized_default) || ((class.eq("Folder") || script)
        && name.eq("SourceAssetId") && assets) || (class.eq("Lighting") && name.eq("ClockTime") && clocks) || (
    class.eq("Lighting") && !name.eq("ClockTime") && name.eq("Technology") && technology)
}

// ---------------------------------------------------------------------------
// Values in words

/// Bytes in hexadecimal digits.
pub open spec fn hex_bytes(bytes: Seq<u8>) -> Seq<char>
    decreases bytes.len(),
{
    if bytes.len() == 0 {
        Seq::empty()
    } else {
        hex_bytes(bytes.drop_last()) + hex(bytes.last() as nat, 2)
    }
}

fn hex_bytes_text(bytes: &Vec<u8>) -> (text: String)
    ensures
        text@ == hex_bytes(bytes@),
{
    let mut text: String = String::new();
    let mut at: usize = 0;
    proof {
        assert(bytes@.take(0) =~= Seq::empty());
        assert(text@ =~= hex_bytes(bytes@.take(0)));
    }
    while at < bytes.len()
        invariant
            at <= bytes@.len(),
            text@ == hex_bytes(bytes@.take(at as int)),
        decreases bytes@.len() - at,
    {
        proof {
            assert(bytes@.take(at + 1).drop_last() =~= bytes@.take(at as int));
        }
        text.append(hex_text(bytes[at] as u128, 2).as_str());
        at = at + 1;
    }
    proof {
        assert(bytes@.take(bytes@.len() as int) =~= bytes@);
    }
    text
}

/// Texts in quotes.
pub open spec fn all_quoted(list: Seq<Seq<char>>) -> Seq<Seq<char>> {
    list.map_values(|text: Seq<char>| quoted_text(text))
}

/// A value in words: its type and what it holds.
pub open spec fn shown(value: VariantView) -> Seq<char> {
    match value {
        VariantView::String(text) => "String("@ + quoted_text(text) + ")"@,
        VariantView::BinaryString(bytes) => "BinaryString("@ + hex_bytes(bytes) + ")"@,
        VariantView::Attributes(attributes) => "Attributes("@ + separated(
            all_quoted(ordered_keys(attributes.dom())),
            ", "@,
        ) + ")"@,
        VariantView::Tags(tags) => "Tags("@ + separated(all_quoted(tags), ", "@) + ")"@,
        VariantView::Opaque { kind, bytes } => if value == bool_value(true) {
            "Bool(true)"@
        } else if value == bool_value(false) {
            "Bool(false)"@
        } else {
            kind + "("@ + hex_bytes(bytes) + ")"@
        },
        VariantView::Ref(_) => Seq::empty(),
        VariantView::Object(_) => Seq::empty(),
    }
}

fn quote_all(list: &Vec<String>) -> (quotes: Vec<String>)
    ensures
        texts(quotes@) == all_quoted(texts(list@)),
{
    let mut quotes: Vec<String> = Vec::new();
    let mut at: usize = 0;
    while at < list.len()
        invariant
            at <= list@.len(),
            quotes@.len() == at,
            forall|k: int| 0 <= k < at ==> (#[trigger] quotes@[k])@ == quoted_text(list@[k]@),
        decreases list@.len() - at,
    {
        quotes.push(quoted(list[at].as_str()));
        at = at + 1;
    }
    proof {
        assert(texts(quotes@) =~= all_quoted(texts(list@)));
    }
    quotes
}

fn quote_names(map: &TextMap<AttributeValue>) -> (quotes: Vec<String>)
    ensures
        texts(quotes@) == all_quoted(ordered_keys(map.deep().dom())),
{
    let mut quotes: Vec<String> = Vec::new();
    let len: usize = map.len();
    let mut at: usize = 0;
    while at < len
        invariant
            at <= len,
            len == map.keys().len(),
            map.listed(),
            quotes@.len() == at,
            forall|k: int| 0 <= k < at ==> (#[trigger] quotes@[k])@ == quoted_text(map.keys()[k]),
        decreases len - at,
    {
        quotes.push(quoted(map.key_at(at).as_str()));
        at = at + 1;
    }
    proof {
        lemma_listed_keys(*map);
        assert(map.deep().dom() =~= map@.dom());
        assert(texts(quotes@) =~= all_quoted(map.keys()));
    }
    quotes
}

fn wrapped(kind: &str, inner: &str) -> (text: String)
    ensures
        text@ == kind@ + "("@ + inner@ + ")"@,
{
    let mut text: String = kind.to_owned();
    text.append("(");
    text.append(inner);
    text.append(")");
    text
}

fn show(value: &Variant) -> (text: String)
    requires
        !(value@ is Ref),
        !(value@ is Object),
    ensures
        text@ == shown(value@),
{
    match value {
        Variant::String(inner) => {
            let text: String = wrapped("String", quoted(inner.as_str()).as_str());
            proof {
                reveal_strlit("String");
                reveal_strlit("(");
                reveal_strlit("String(");
                assert("String"@ + "("@ =~= "String("@);
            }
            text
        },
        Variant::BinaryString(bytes) => {
            let text: String = wrapped("BinaryString", hex_bytes_text(bytes).as_str());
            proof {
                reveal_strlit("BinaryString");
                reveal_strlit("(");
                reveal_strlit("BinaryString(");
                assert("BinaryString"@ + "("@ =~= "BinaryString("@);
            }
            text
        },
        Variant::Attributes(attributes) => {
            let names: Vec<String> = quote_names(attributes);
            let text: String = wrapped("Attributes", join(&names, ", ").as_str());
            proof {
                reveal_strlit("Attributes");
                reveal_strlit("(");
                reveal_strlit("Attributes(");
                assert("Attributes"@ + "("@ =~= "Attributes("@);
            }
            text
        },
        Variant::Tags(tags) => {
            let quotes: Vec<String> = quote_all(tags);
            let text: String = wrapped("Tags", join(&quotes, ", ").as_str());
            proof {
                reveal_strlit("Tags");
                reveal_strlit("(");
                reveal_strlit("Tags(");
                assert("Tags"@ + "("@ =~= "Tags("@);
            }
            text
        },
        Variant::Opaque { kind, bytes } => {
            if value.same(&Variant::boolean(true)) {
                return "Bool(true)".to_owned();
            }
            if value.same(&Variant::boolean(false)) {
                return "Bool(false)".to_owned();
            }
            wrapped(kind.as_str(), hex_bytes_text(bytes).as_str())
        },
        _ => String::new(),
    }
}

/// A reference in words.
pub open spec fn reference_shown(place: PlaceStructure, target: Ref, pairs: Seq<Option<usize>>) -> Seq<char> {
    if target == NO_REF {
        "nil"@
    } else {
        match place.place_of(target) {
            Some(at) => match pairs[at] {
                Some(pair) => "pair:"@ + decimal(pair as nat) + " "@ + path_of(place.nodes@, at),
                None => path_of(place.nodes@, at),
            },
            None => "<external>"@,
        }
    }
}

fn reference_summary(place: &PlaceStructure, target: Ref, pairs: &Vec<Option<usize>>) -> (text: String)
    requires
        place.wf(),
        pairs@.len() == place.nodes@.len(),
    ensures
        text@ == reference_shown(*place, target, pairs@),
{
    if target == NO_REF {
        return "nil".to_owned();
    }
    match place.find(target) {
        Some(at) => match pairs[at] {
            Some(pair) => {
                let mut text: String = "pair:".to_owned();
                text.append(decimal_text(pair as u64).as_str());
                text.append(" ");
                text.append(place.display_path(at).as_str());
                text
            },
            None => place.display_path(at),
        },
        None => "<external>".to_owned(),
    }
}

/// The last place at or before `at` between two characters.
pub open spec fn boundary_before(bytes: Seq<u8>, at: int) -> int
    decreases at,
{
    if at <= 0 || is_char_boundary(bytes, at) {
        at
    } else {
        boundary_before(bytes, at - 1)
    }
}

/// A text of at most `max` bytes, with a mark where something was cut off.
pub open spec fn truncated(text: Seq<char>, max: int) -> Seq<char> {
    if text_bytes(text).len() <= max {
        text
    } else {
        vstd::utf8::decode_utf8(text_bytes(text).subrange(0, boundary_before(text_bytes(text), max))) + seq!['\u{2026}']
    }
}

/// A text of at most `max` bytes, with a mark where something was cut off.
pub fn truncate(value: &str, max: usize) -> (text: String)
    ensures
        text@ == truncated(value@, max as int),
{
    let whole: &[u8] = value.as_bytes();
    if whole.len() <= max {
        return value.to_owned();
    }
    let mut boundary: usize = max;
    while boundary > 0 && !value.is_char_boundary(boundary)
        invariant
            boundary <= max,
            boundary_before(text_bytes(value@), max as int) == boundary_before(text_bytes(value@), boundary as int),
        decreases boundary,
    {
        boundary = boundary - 1;
    }
    proof {
        vstd::utf8::encode_utf8_valid_utf8(value@);
        if boundary == 0 {
            assert(is_char_boundary(text_bytes(value@), 0));
        }
        assert(boundary_before(text_bytes(value@), max as int) == boundary);
    }
    let parts: (&str, &str) = value.split_at(boundary);
    let mut text: String = parts.0.to_owned();
    proof {
        vstd::utf8::encode_utf8_decode_utf8(parts.0@);
        assert(text_bytes(parts.0@) =~= text_bytes(value@).subrange(0, boundary as int));
    }
    text.push('\u{2026}');
    proof {
        assert(text@ =~= truncated(value@, max as int));
    }
    text
}

/// A value in words, cut to a length that a reader can take in.
pub open spec fn summary(place: PlaceStructure, value: Option<VariantView>, pairs: Seq<Option<usize>>) -> Seq<char> {
    match value {
        None => "<absent>"@,
        Some(VariantView::Ref(target)) => truncated(reference_shown(place, target, pairs), 240),
        Some(VariantView::Object(target)) => truncated(
            "Content.Object("@ + reference_shown(place, target, pairs) + ")"@,
            240,
        ),
        Some(value) => truncated(shown(value), 240),
    }
}

fn value_summary(place: &PlaceStructure, value: Option<&Variant>, pairs: &Vec<Option<usize>>) -> (text: String)
    requires
        place.wf(),
        pairs@.len() == place.nodes@.len(),
    ensures
        text@ == summary(*place, value_view(value), pairs@),
{
    match value {
        None => "<absent>".to_owned(),
        Some(value) => match value {
            Variant::Ref(target) => truncate(reference_summary(place, *target, pairs).as_str(), 240),
            Variant::Object(target) => {
                let mut text: String = "Content.Object(".to_owned();
                text.append(reference_summary(place, *target, pairs).as_str());
                text.append(")");
                truncate(text.as_str(), 240)
            },
            _ => truncate(show(value).as_str(), 240),
        },
    }
}

/// Why a difference between two values is none to the game.
pub open spec fn accepted_reason(class: Seq<char>, name: Seq<char>, unseen_by_game: bool, engine: bool) -> Seq<char> {
    if unseen_by_game {
        "Studio runtime/edit-camera state does not affect gameplay"@
    } else if engine {
        "Studio's local serializer uses an engine-equivalent representation"@
    } else if name == "UniqueId"@ || name == "HistoryId"@ {
        "UniqueId representation is explicitly non-gameplay"@
    } else if name == "Attributes"@ {
        "managed worktree/MCP transport attributes do not affect gameplay"@
    } else if name == "Tags"@ {
        "tag ordering is set-like and does not affect gameplay"@
    } else if class == "Workspace"@ && name == "CurrentCamera"@ {
        "the edit camera is dynamic Studio state"@
    } else {
        "canonical values are gameplay-equivalent"@
    }
}

fn accepted_property_reason(class: &str, name: &str, unseen_by_game: bool, engine: bool) -> (reason: String)
    ensures
        reason@ == accepted_reason(class@, name@, unseen_by_game, engine),
{
    if unseen_by_game {
        "Studio runtime/edit-camera state does not affect gameplay".to_owned()
    } else if engine {
        "Studio's local serializer uses an engine-equivalent representation".to_owned()
    } else if name.eq("UniqueId") || name.eq("HistoryId") {
        "UniqueId representation is explicitly non-gameplay".to_owned()
    } else if name.eq("Attributes") {
        "managed worktree/MCP transport attributes do not affect gameplay".to_owned()
    } else if name.eq("Tags") {
        "tag ordering is set-like and does not affect gameplay".to_owned()
    } else if class.eq("Workspace") && name.eq("CurrentCamera") {
        "the edit camera is dynamic Studio state".to_owned()
    } else {
        "canonical values are gameplay-equivalent".to_owned()
    }
}

// ---------------------------------------------------------------------------
// The comparison

/// The difference between one property of two paired instances, where there is
/// one.
pub open spec fn property_difference(
    left: PlaceStructure,
    right: PlaceStructure,
    reflection: Reflection,
    matching: MatchingView,
    l: int,
    r: int,
    name: Seq<char>,
) -> Option<DifferenceView> {
    let left_class = left.nodes@[l].class@;
    let right_class = right.nodes@[r].class@;
    let allow_default = !absence_matters(left_class, name);
    let left_value = effective_value(
        reflection,
        left_class,
        left.nodes@[l].properties.deep(),
        name,
        allow_default,
    );
    let right_value = effective_value(
        reflection,
        right_class,
        right.nodes@[r].properties.deep(),
        name,
        allow_default,
    );
    if value_bytes(left, left_class, left_value, matching.left_pair) == value_bytes(
        right,
        right_class,
        right_value,
        matching.right_pair,
    ) {
        None
    } else {
        let unseen_by_game = left.runtime(l) || right.runtime(r) || edit_camera(left, l) || edit_camera(right, r);
        let engine = engine_equivalent(left, right, l, r, name, left_value, right_value);
        let accepted = unseen_by_game || (left_class == "Workspace"@ && name == "CurrentCamera"@) || engine
            || game_bytes(left, left_class, name, left_value, matching.left_pair) == game_bytes(
            right,
            right_class,
            name,
            right_value,
            matching.right_pair,
        );
        Some(
            DifferenceView {
                impact: if accepted {
                    Impact::NonGameplay
                } else {
                    Impact::PotentialGameplay
                },
                kind: "property_changed"@,
                path: path_of(left.nodes@, l),
                property: Some(name),
                before: Some(summary(left, left_value, matching.left_pair)),
                after: Some(summary(right, right_value, matching.right_pair)),
                reason: if accepted {
                    accepted_reason(left_class, name, unseen_by_game, engine)
                } else {
                    "authored property difference can affect gameplay"@
                },
            },
        )
    }
}

/// The differences between the listed properties of two paired instances.
pub open spec fn node_differences(
    left: PlaceStructure,
    right: PlaceStructure,
    reflection: Reflection,
    matching: MatchingView,
    l: int,
    r: int,
    names: Seq<Seq<char>>,
) -> Seq<DifferenceView>
    decreases names.len(),
{
    if names.len() == 0 {
        Seq::empty()
    } else {
        let before = node_differences(left, right, reflection, matching, l, r, names.drop_last());
        match property_difference(left, right, reflection, matching, l, r, names.last()) {
            Some(difference) => before.push(difference),
            None => before,
        }
    }
}

/// The names of the properties that either of two instances has.
pub open spec fn property_names(left: PlaceStructure, right: PlaceStructure, l: int, r: int) -> Seq<Seq<char>> {
    ordered_keys(left.nodes@[l].properties.deep().dom().union(right.nodes@[r].properties.deep().dom()))
}

/// The differences between the instances of the first pairs that are not the
/// same in full.
pub open spec fn pair_differences(both: Compared, reflection: Reflection, matching: MatchingView, count: nat) -> Seq<
    DifferenceView,
>
    decreases count,
{
    if count == 0 {
        Seq::empty()
    } else {
        let before = pair_differences(both, reflection, matching, (count - 1) as nat);
        let (l, r) = matching.pairs[count - 1];
        if both.left_own[l as int].full == both.right_own[r as int].full {
            before
        } else {
            before + node_differences(
                both.left,
                both.right,
                reflection,
                matching,
                l as int,
                r as int,
                property_names(both.left, both.right, l as int, r as int),
            )
        }
    }
}

/// Everything that differs between two places.
pub open spec fn all_differences(both: Compared, reflection: Reflection) -> Seq<DifferenceView> {
    let matching = counterparts(both);
    let left = both.left;
    let right = both.right;
    metadata_differences(
        left.metadata.deep(),
        right.metadata.deep(),
        ordered_keys(left.metadata.deep().dom().union(right.metadata.deep().dom())),
    ) + identifier_differences(unique_ids(left, left.nodes@.len()), unique_ids(right, right.nodes@.len()))
        + order_differences(left, matching.order_changes) + lone_differences(
        left,
        reflection,
        matching.left_unmatched,
        true,
    ) + lone_differences(right, reflection, matching.right_unmatched, false) + pair_differences(
        both,
        reflection,
        matching,
        matching.pairs.len(),
    )
}

proof fn lemma_no_metadata_differences(map: Map<Seq<char>, Seq<char>>, keys: Seq<Seq<char>>)
    ensures
        metadata_differences(map, map, keys).len() == 0,
    decreases keys.len(),
{
    if keys.len() > 0 {
        lemma_no_metadata_differences(map, keys.drop_last());
    }
}

proof fn lemma_no_disagreements(both: Compared, matching: MatchingView, count: nat)
    requires
        both.left == both.right,
        both.left_locators == both.right_locators,
        mirrored(matching),
        count <= matching.pairs.len(),
    ensures
        both.disagreements(matching, count) == 0,
    decreases count,
{
    if count > 0 {
        lemma_no_disagreements(both, matching, (count - 1) as nat);
        assert(matching.pairs[count - 1].0 == matching.pairs[count - 1].1);
    }
}

proof fn lemma_no_pair_differences(both: Compared, reflection: Reflection, matching: MatchingView, count: nat)
    requires
        both.left_own == both.right_own,
        mirrored(matching),
        count <= matching.pairs.len(),
    ensures
        pair_differences(both, reflection, matching, count).len() == 0,
    decreases count,
{
    if count > 0 {
        lemma_no_pair_differences(both, reflection, matching, (count - 1) as nat);
        assert(matching.pairs[count - 1].0 == matching.pairs[count - 1].1);
    }
}

/// A place does not differ from itself.
pub proof fn law_a_place_does_not_differ_from_itself(place: PlaceStructure, reflection: Reflection)
    ensures
        all_differences(compared(place, place, reflection), reflection) == Seq::<DifferenceView>::empty(),
        mirrored(counterparts(compared(place, place, reflection))),
{
    let both = compared(place, place, reflection);
    let first = both.matching_by(None, None);
    let prints = subtrees(place.nodes@, both.left_own, Some(both.left_references(None)));
    lemma_matched_mirrored(
        Sides { left: place.nodes@, right: place.nodes@, left_prints: prints, right_prints: prints },
    );
    assert(mirrored(first));
    lemma_no_disagreements(both, first, first.pairs.len());
    assert(set![mapping_key(first.right_pair)].finite());
    assert(counterparts(both) == first);
    lemma_no_metadata_differences(
        place.metadata.deep(),
        ordered_keys(place.metadata.deep().dom().union(place.metadata.deep().dom())),
    );
    lemma_no_pair_differences(both, reflection, first, first.pairs.len());
    assert(all_differences(both, reflection) =~= Seq::<DifferenceView>::empty());
}

/// How many instances the subtrees of the listed instances have.
pub open spec fn total_size(place: PlaceStructure, list: Seq<usize>) -> nat
    decreases list.len(),
{
    if list.len() == 0 {
        0
    } else {
        total_size(place, list.drop_last()) + size_of(place.nodes@, list.last() as int)
    }
}

fn find_total_size(place: &PlaceStructure, list: &Vec<usize>) -> (total: usize)
    requires
        place.wf(),
        forall|k: int| 0 <= k < list@.len() ==> (#[trigger] list@[k]) < place.nodes@.len(),
    ensures
        total == crate::place::held(total_size(*place, list@)),
{
    let mut total: usize = 0;
    let mut at: usize = 0;
    proof {
        assert(list@.take(0) =~= Seq::empty());
    }
    while at < list.len()
        invariant
            at <= list@.len(),
            place.wf(),
            forall|k: int| 0 <= k < list@.len() ==> (#[trigger] list@[k]) < place.nodes@.len(),
            total == crate::place::held(total_size(*place, list@.take(at as int))),
        decreases list@.len() - at,
    {
        proof {
            assert(list@.take(at + 1).drop_last() =~= list@.take(at as int));
        }
        total = total.saturating_add(place.subtree_size(list[at]));
        at = at + 1;
    }
    proof {
        assert(list@.take(list@.len() as int) =~= list@);
    }
    total
}

fn optional_bytes(
    place: &PlaceStructure,
    class: &str,
    value: Option<&Variant>,
    pairs: &Vec<Option<usize>>,
) -> (bytes: Vec<u8>)
    requires
        place.wf(),
        pairs@.len() == place.nodes@.len(),
    ensures
        bytes@ == value_bytes(*place, class@, value_view(value), pairs@),
{
    match value {
        Some(value) => canonical_value(place, class, value, false, Some(pairs)),
        None => {
            let mut bytes: Vec<u8> = Vec::new();
            push_text(&mut bytes, "<absent>");
            proof {
                assert(bytes@ =~= text_bytes("<absent>"@));
            }
            bytes
        },
    }
}

fn optional_game_bytes(
    place: &PlaceStructure,
    class: &str,
    name: &str,
    value: Option<&Variant>,
    pairs: &Vec<Option<usize>>,
) -> (bytes: Option<Vec<u8>>)
    requires
        place.wf(),
        pairs@.len() == place.nodes@.len(),
    ensures
        crate::snapshot::bytes_view(bytes) == game_bytes(*place, class@, name@, value_view(value), pairs@),
{
    match value {
        Some(value) => {
            if is_unique_property(name, value) {
                None
            } else {
                Some(canonical_value(place, class, value, true, Some(pairs)))
            }
        },
        None => None,
    }
}

/// What a comparison of properties reads.
struct Pairing<'a> {
    left: &'a PlaceStructure,
    right: &'a PlaceStructure,
    reflection: &'a Reflection,
    matching: &'a Matching,
    left_cameras: &'a Vec<bool>,
    right_cameras: &'a Vec<bool>,
}

impl<'a> Pairing<'a> {
    spec fn wf(self) -> bool {
        &&& self.left.wf()
        &&& self.right.wf()
        &&& coherent(self.matching@)
        &&& self.matching.left_pair@.len() == self.left.nodes@.len()
        &&& self.matching.right_pair@.len() == self.right.nodes@.len()
        &&& self.left_cameras@.len() == self.left.nodes@.len()
        &&& self.right_cameras@.len() == self.right.nodes@.len()
        &&& forall|k: int|
            0 <= k < self.left_cameras@.len() ==> #[trigger] self.left_cameras@[k] == edit_camera(*self.left, k)
        &&& forall|k: int|
            0 <= k < self.right_cameras@.len() ==> #[trigger] self.right_cameras@[k] == edit_camera(*self.right, k)
    }

    fn compare_property(&self, l: usize, r: usize, name: &str) -> (difference: Option<Difference>)
        requires
            self.wf(),
            l < self.left.nodes@.len(),
            r < self.right.nodes@.len(),
        ensures
            match property_difference(
                *self.left,
                *self.right,
                *self.reflection,
                self.matching@,
                l as int,
                r as int,
                name@,
            ) {
                Some(expected) => difference matches Some(found) && found@ == expected,
                None => difference is None,
            },
    {
        let left_node: &PlaceNode = &self.left.nodes[l];
        let right_node: &PlaceNode = &self.right.nodes[r];
        let left_class: &str = left_node.class.as_str();
        let right_class: &str = right_node.class.as_str();
        let allow_default: bool = !absence_changes_engine_load(left_class, name);
        let left_value: Option<&Variant> = find_effective(
            self.reflection,
            left_class,
            &left_node.properties,
            name,
            allow_default,
        );
        let right_value: Option<&Variant> = find_effective(
            self.reflection,
            right_class,
            &right_node.properties,
            name,
            allow_default,
        );
        let left_bytes: Vec<u8> = optional_bytes(self.left, left_class, left_value, &self.matching.left_pair);
        let right_bytes: Vec<u8> = optional_bytes(self.right, right_class, right_value, &self.matching.right_pair);
        if crate::text::same_bytes(left_bytes.as_slice(), right_bytes.as_slice()) {
            return None;
        }
        let left_game: Option<Vec<u8>> = optional_game_bytes(
            self.left,
            left_class,
            name,
            left_value,
            &self.matching.left_pair,
        );
        let right_game: Option<Vec<u8>> = optional_game_bytes(
            self.right,
            right_class,
            name,
            right_value,
            &self.matching.right_pair,
        );
        let unseen_by_game: bool = self.left.is_studio_runtime_subtree(l) || self.right.is_studio_runtime_subtree(r)
            || self.left_cameras[l] || self.right_cameras[r];
        let engine: bool = engine_serialization_equivalent(self.left, self.right, l, r, name, left_value, right_value);
        let accepted: bool = unseen_by_game || (left_class.eq("Workspace") && name.eq("CurrentCamera")) || engine
            || crate::snapshot::same_raw(&left_game, &right_game);
        let reason: String = if accepted {
            accepted_property_reason(left_class, name, unseen_by_game, engine)
        } else {
            "authored property difference can affect gameplay".to_owned()
        };
        let impact: Impact = if accepted {
            Impact::NonGameplay
        } else {
            Impact::PotentialGameplay
        };
        Some(
            Difference {
                impact,
                kind: "property_changed".to_owned(),
                path: self.left.display_path(l),
                property: Some(name.to_owned()),
                before: Some(value_summary(self.left, left_value, &self.matching.left_pair)),
                after: Some(value_summary(self.right, right_value, &self.matching.right_pair)),
                reason,
            },
        )
    }

    fn compare_node_properties(
        &self,
        l: usize,
        r: usize,
        report: &mut DiffReport,
        max_details: usize,
        Ghost(list): Ghost<Seq<DifferenceView>>,
    )
        requires
            self.wf(),
            l < self.left.nodes@.len(),
            r < self.right.nodes@.len(),
            reports(*old(report), list, max_details as nat),
        ensures
            reports(
                *final(report),
                list + node_differences(
                    *self.left,
                    *self.right,
                    *self.reflection,
                    self.matching@,
                    l as int,
                    r as int,
                    property_names(*self.left, *self.right, l as int, r as int),
                ),
                max_details as nat,
            ),
            same_totals(*old(report), *final(report)),
    {
        let left_properties: &Properties = &self.left.nodes[l].properties;
        let right_properties: &Properties = &self.right.nodes[r].properties;
        let names: TextMap<bool> = all_names(left_properties, right_properties);
        let len: usize = names.len();
        let ghost keys = names.keys();
        proof {
            lemma_listed_keys(names);
            assert(left_properties.deep().dom() =~= left_properties@.dom());
            assert(right_properties.deep().dom() =~= right_properties@.dom());
            assert(keys.take(0) =~= Seq::empty());
            assert(list + node_differences(
                *self.left,
                *self.right,
                *self.reflection,
                self.matching@,
                l as int,
                r as int,
                keys.take(0),
            ) =~= list);
        }
        let mut at: usize = 0;
        while at < len
            invariant
                at <= len,
                self.wf(),
                l < self.left.nodes@.len(),
                r < self.right.nodes@.len(),
                len == keys.len(),
                keys == names.keys(),
                names.listed(),
                reports(
                    *report,
                    list + node_differences(
                        *self.left,
                        *self.right,
                        *self.reflection,
                        self.matching@,
                        l as int,
                        r as int,
                        keys.take(at as int),
                    ),
                    max_details as nat,
                ),
                same_totals(*old(report), *report),
            decreases len - at,
        {
            let ghost done = node_differences(
                *self.left,
                *self.right,
                *self.reflection,
                self.matching@,
                l as int,
                r as int,
                keys.take(at as int),
            );
            proof {
                assert(keys.take(at + 1).drop_last() =~= keys.take(at as int));
            }
            match self.compare_property(l, r, names.key_at(at).as_str()) {
                Some(difference) => {
                    let ghost view = difference@;
                    push_difference(report, max_details, difference, Ghost(list + done));
                    proof {
                        assert((list + done).push(view) =~= list + done.push(view));
                    }
                },
                None => {},
            }
            at = at + 1;
        }
        proof {
            assert(keys.take(len as int) =~= keys);
        }
    }

    fn compare_pairs(
        &self,
        shop: &Workshop<'a>,
        report: &mut DiffReport,
        max_details: usize,
        Ghost(list): Ghost<Seq<DifferenceView>>,
    )
        requires
            self.wf(),
            shop.both().wf(),
            *shop.left == *self.left,
            *shop.right == *self.right,
            reports(*old(report), list, max_details as nat),
        ensures
            reports(
                *final(report),
                list + pair_differences(shop.both(), *self.reflection, self.matching@, self.matching.pairs@.len()),
                max_details as nat,
            ),
            same_totals(*old(report), *final(report)),
    {
        let ghost both = shop.both();
        let mut at: usize = 0;
        proof {
            assert(list + pair_differences(both, *self.reflection, self.matching@, 0) =~= list);
        }
        while at < self.matching.pairs.len()
            invariant
                at <= self.matching.pairs@.len(),
                self.wf(),
                both == shop.both(),
                both.wf(),
                *shop.left == *self.left,
                *shop.right == *self.right,
                reports(
                    *report,
                    list + pair_differences(both, *self.reflection, self.matching@, at as nat),
                    max_details as nat,
                ),
                same_totals(*old(report), *report),
            decreases self.matching.pairs@.len() - at,
        {
            let ghost done = pair_differences(both, *self.reflection, self.matching@, at as nat);
            proof {
                assert(pair_noted(self.matching@, at as int));
            }
            let (l, r): (usize, usize) = self.matching.pairs[at];
            if shop.left_own[l].full != shop.right_own[r].full {
                self.compare_node_properties(l, r, report, max_details, Ghost(list + done));
                proof {
                    let more = node_differences(
                        *self.left,
                        *self.right,
                        *self.reflection,
                        self.matching@,
                        l as int,
                        r as int,
                        property_names(*self.left, *self.right, l as int, r as int),
                    );
                    assert((list + done) + more =~= list + (done + more));
                }
            }
            at = at + 1;
        }
    }
}

/// Less one, where there is one.
pub open spec fn without_root(count: nat) -> nat {
    if count == 0 {
        0
    } else {
        (count - 1) as nat
    }
}

/// What a comparison of two places reports.
pub open spec fn compares(
    report: DiffReport,
    left: PlaceStructure,
    right: PlaceStructure,
    reflection: Reflection,
    max: nat,
) -> bool {
    let matching = counterparts(compared(left, right, reflection));
    &&& reports(report, all_differences(compared(left, right, reflection), reflection), max)
    &&& report.before@ == left.path@
    &&& report.after@ == right.path@
    &&& report.before_instances == left.nodes@.len() - 1
    &&& report.after_instances == right.nodes@.len() - 1
    &&& report.matched_instances == without_root(matching.pairs.len())
    &&& report.added_instances == crate::place::held(total_size(right, matching.right_unmatched))
    &&& report.removed_instances == crate::place::held(total_size(left, matching.left_unmatched))
}

proof fn lemma_impacts(list: Seq<DifferenceView>)
    ensures
        with_impact(list, Impact::PotentialGameplay) + with_impact(list, Impact::NonGameplay) == list.len(),
    decreases list.len(),
{
    if list.len() > 0 {
        lemma_impacts(list.drop_last());
    }
}

/// A limit on the details of a comparison changes nothing else that it reports: the counts
/// stay, and fewer details are the first of more. As many are given as are wanted and
/// there are, and a report says whether that is all of them. Counts that no longer fit a
/// machine number do not tell how many there are.
pub proof fn law_limits_only_cut_details(
    few: DiffReport,
    fewer: nat,
    many: DiffReport,
    more: nat,
    left: PlaceStructure,
    right: PlaceStructure,
    reflection: Reflection,
)
    requires
        compares(few, left, right, reflection, fewer),
        compares(many, left, right, reflection, more),
        fewer <= more,
    ensures
        few.before@ == many.before@,
        few.after@ == many.after@,
        few.before_instances == many.before_instances,
        few.after_instances == many.after_instances,
        few.matched_instances == many.matched_instances,
        few.added_instances == many.added_instances,
        few.removed_instances == many.removed_instances,
        few.blocking_differences == many.blocking_differences,
        few.non_gameplay_differences == many.non_gameplay_differences,
        differences_view(few.differences@).is_prefix_of(differences_view(many.differences@)),
        few.blocking_differences < usize::MAX && few.non_gameplay_differences < usize::MAX ==> {
            let total = few.blocking_differences + few.non_gameplay_differences;
            &&& few.details_truncated == (total > fewer)
            &&& few.differences@.len() == (if total > fewer {
                fewer as int
            } else {
                total
            })
        },
{
    let list = all_differences(compared(left, right, reflection), reflection);
    lemma_impacts(list);
    assert(differences_view(few.differences@).len() == few.differences@.len());
    assert(details(list, fewer) =~= details(list, more).take(details(list, fewer).len() as int));
}

/// Compares two places. Every difference is counted; the first `max_details` of
/// them are given in detail.
pub fn compare(
    left: &PlaceStructure,
    right: &PlaceStructure,
    reflection: &Reflection,
    max_details: usize,
) -> (report: DiffReport)
    requires
        left.wf(),
        right.wf(),
    ensures
        compares(report, *left, *right, *reflection, max_details as nat),
{
    let shop: Workshop = Workshop::open(left, right, reflection);
    let matching: Matching = shop.find_counterparts();
    let ghost both = shop.both();
    let matched_instances: usize = if matching.pairs.len() == 0 {
        0
    } else {
        matching.pairs.len() - 1
    };
    proof {
        let view = matching@;
        assert forall|k: int| 0 <= k < matching.left_unmatched@.len() implies (#[trigger] matching.left_unmatched@[k])
            < left.nodes@.len() by {
            assert(view.left_unmatched[k] < view.left_pair.len());
        }
        assert forall|k: int| 0 <= k < matching.right_unmatched@.len() implies (#[trigger] matching.right_unmatched@[k])
            < right.nodes@.len() by {
            assert(view.right_unmatched[k] < view.right_pair.len());
        }
        assert forall|k: int| 0 <= k < matching.order_changes@.len() implies (#[trigger] matching.order_changes@[k]).0
            < left.nodes@.len() by {
            assert(view.order_changes[k].0 < view.left_pair.len());
        }
    }
    let mut report: DiffReport = DiffReport {
        before: left.path.clone(),
        after: right.path.clone(),
        before_instances: left.nodes.len() - 1,
        after_instances: right.nodes.len() - 1,
        matched_instances,
        added_instances: find_total_size(right, &matching.right_unmatched),
        removed_instances: find_total_size(left, &matching.left_unmatched),
        blocking_differences: 0,
        non_gameplay_differences: 0,
        details_truncated: false,
        differences: Vec::new(),
    };
    let ghost none = Seq::<DifferenceView>::empty();
    proof {
        assert(differences_view(report.differences@) =~= none);
        assert(details(none, max_details as nat) =~= none);
    }
    report_metadata(&left.metadata, &right.metadata, &mut report, max_details, Ghost(none));
    let ghost metadata = metadata_differences(
        left.metadata.deep(),
        right.metadata.deep(),
        ordered_keys(left.metadata.deep().dom().union(right.metadata.deep().dom())),
    );
    proof {
        assert(none + metadata =~= metadata);
    }
    let left_unique: Fingerprint = find_unique_ids(left);
    let right_unique: Fingerprint = find_unique_ids(right);
    report_identifiers(left_unique, right_unique, &mut report, max_details, Ghost(metadata));
    let ghost identified = metadata + identifier_differences(left_unique, right_unique);
    report_order(left, &matching.order_changes, &mut report, max_details, Ghost(identified));
    let ghost ordered = identified + order_differences(*left, matching.order_changes@);
    let left_cameras: Vec<bool> = find_edit_cameras(left);
    let right_cameras: Vec<bool> = find_edit_cameras(right);
    report_lone(
        left,
        reflection,
        &left_cameras,
        &matching.left_unmatched,
        true,
        &mut report,
        max_details,
        Ghost(ordered),
    );
    let ghost removed = ordered + lone_differences(*left, *reflection, matching.left_unmatched@, true);
    report_lone(
        right,
        reflection,
        &right_cameras,
        &matching.right_unmatched,
        false,
        &mut report,
        max_details,
        Ghost(removed),
    );
    let ghost added = removed + lone_differences(*right, *reflection, matching.right_unmatched@, false);
    let pairing: Pairing = Pairing {
        left,
        right,
        reflection,
        matching: &matching,
        left_cameras: &left_cameras,
        right_cameras: &right_cameras,
    };
    pairing.compare_pairs(&shop, &mut report, max_details, Ghost(added));
    report
}

} // verus!
