//! Which instance of one place is which instance of another.
//!
//! Instances are paired from the root down. Below a pair, children of the same
//! class and name are paired: first those whose subtrees have the same
//! fingerprint, then the rest in order.

use crate::place::{is_child, key_at, placed, shaped, NodeKey, PlaceNode, PlaceStructure};
use crate::place_fingerprints::Fingerprint;
use crate::text::{is_before, lemma_text_before_total, lemma_text_before_transitive, text_before};
use vstd::prelude::*;

verus! {

/// Which instances are paired. A pair is numbered by its place in `pairs`.
#[derive(Debug)]
pub struct Matching {
    pub pairs: Vec<(usize, usize)>,
    pub left_pair: Vec<Option<usize>>,
    pub right_pair: Vec<Option<usize>>,
    pub left_unmatched: Vec<usize>,
    pub right_unmatched: Vec<usize>,
    /// The pairs whose paired children stand in another order.
    pub order_changes: Vec<(usize, usize)>,
}

#[verifier::ext_equal]
pub struct MatchingView {
    pub pairs: Seq<(usize, usize)>,
    pub left_pair: Seq<Option<usize>>,
    pub right_pair: Seq<Option<usize>>,
    pub left_unmatched: Seq<usize>,
    pub right_unmatched: Seq<usize>,
    pub order_changes: Seq<(usize, usize)>,
}

impl View for Matching {
    type V = MatchingView;

    open spec fn view(&self) -> MatchingView {
        MatchingView {
            pairs: self.pairs@,
            left_pair: self.left_pair@,
            right_pair: self.right_pair@,
            left_unmatched: self.left_unmatched@,
            right_unmatched: self.right_unmatched@,
            order_changes: self.order_changes@,
        }
    }
}

impl MatchingView {
    /// One pair more.
    pub open spec fn with_pair(self, left: usize, right: usize) -> MatchingView {
        MatchingView {
            pairs: self.pairs.push((left, right)),
            left_pair: self.left_pair.update(left as int, Some(self.pairs.len() as usize)),
            right_pair: self.right_pair.update(right as int, Some(self.pairs.len() as usize)),
            ..self
        }
    }

    /// Instances of both places that have no counterpart.
    pub open spec fn without(self, left: Seq<usize>, right: Seq<usize>) -> MatchingView {
        MatchingView {
            left_unmatched: self.left_unmatched + left,
            right_unmatched: self.right_unmatched + right,
            ..self
        }
    }
}

// ---------------------------------------------------------------------------
// Children in the order of class and name

/// One class and name comes before another: by class, then by name.
pub open spec fn key_before(left: NodeKey, right: NodeKey) -> bool {
    text_before(left.0, right.0) || (left.0 == right.0 && text_before(left.1, right.1))
}

/// Children in order, with one more behind those that do not come after it.
pub open spec fn child_inserted(all: Seq<PlaceNode>, list: Seq<usize>, child: usize) -> Seq<usize>
    decreases list.len(),
{
    if list.len() == 0 {
        seq![child]
    } else if key_before(key_at(all, child as int), key_at(all, list.last() as int)) {
        child_inserted(all, list.drop_last(), child).push(list.last())
    } else {
        list.push(child)
    }
}

/// Children in the order of class and name. Those of the same class and name
/// keep their order.
pub open spec fn ordered_children(all: Seq<PlaceNode>, list: Seq<usize>) -> Seq<usize>
    decreases list.len(),
{
    if list.len() == 0 {
        Seq::empty()
    } else {
        child_inserted(all, ordered_children(all, list.drop_last()), list.last())
    }
}

spec fn in_order(all: Seq<PlaceNode>, list: Seq<usize>) -> bool {
    forall|i: int, j: int|
        0 <= i < j < list.len() ==> !#[trigger] key_before(key_at(all, list[j] as int), key_at(all, list[i] as int))
}

pub(crate) proof fn lemma_key_order(a: NodeKey, b: NodeKey, c: NodeKey)
    ensures
        !(key_before(a, b) && key_before(b, a)),
        a != b ==> key_before(a, b) || key_before(b, a),
        key_before(a, b) && !key_before(c, b) ==> key_before(a, c),
{
    lemma_text_before_total(a.0, b.0);
    lemma_text_before_total(a.1, b.1);
    lemma_text_before_total(b.0, c.0);
    lemma_text_before_total(b.1, c.1);
    lemma_text_before_total(a.0, c.0);
    lemma_text_before_total(a.1, c.1);
    if key_before(a, b) && !key_before(c, b) {
        if text_before(a.0, b.0) && text_before(b.0, c.0) {
            lemma_text_before_transitive(a.0, b.0, c.0);
        }
        if text_before(a.1, b.1) && text_before(b.1, c.1) {
            lemma_text_before_transitive(a.1, b.1, c.1);
        }
    }
}

proof fn lemma_child_inserted(all: Seq<PlaceNode>, list: Seq<usize>, child: usize, place: int)
    requires
        0 <= place <= list.len(),
        forall|k: int|
            place <= k < list.len() ==> key_before(key_at(all, child as int), key_at(all, #[trigger] list[k] as int)),
        place > 0 ==> !key_before(key_at(all, child as int), key_at(all, list[place - 1] as int)),
    ensures
        child_inserted(all, list, child) == list.insert(place, child),
    decreases list.len(),
{
    if list.len() == 0 {
        assert(list.insert(place, child) =~= seq![child]);
    } else if place == list.len() {
        assert(list.insert(place, child) =~= list.push(child));
    } else {
        assert(key_before(key_at(all, child as int), key_at(all, list[list.len() - 1] as int)));
        lemma_child_inserted(all, list.drop_last(), child, place);
        assert(list.drop_last().insert(place, child).push(list.last()) =~= list.insert(place, child));
    }
}

fn is_key_before(all: &Vec<PlaceNode>, left: usize, right: usize) -> (before: bool)
    requires
        left < all@.len(),
        right < all@.len(),
    ensures
        before == key_before(key_at(all@, left as int), key_at(all@, right as int)),
{
    let a: &PlaceNode = &all[left];
    let b: &PlaceNode = &all[right];
    if is_before(a.class.as_str(), b.class.as_str()) {
        return true;
    }
    a.class.as_str().eq(b.class.as_str()) && is_before(a.name.as_str(), b.name.as_str())
}

/// The place of a child behind those that do not come after it.
fn insert_place(all: &Vec<PlaceNode>, list: &Vec<usize>, child: usize) -> (place: usize)
    requires
        child < all@.len(),
        forall|k: int| 0 <= k < list@.len() ==> (#[trigger] list@[k]) < all@.len(),
        in_order(all@, list@),
    ensures
        place <= list@.len(),
        list@.insert(place as int, child) == child_inserted(all@, list@, child),
        in_order(all@, list@.insert(place as int, child)),
{
    let mut low: usize = 0;
    let mut high: usize = list.len();
    let ghost key = key_at(all@, child as int);
    while low < high
        invariant
            low <= high <= list@.len(),
            child < all@.len(),
            key == key_at(all@, child as int),
            forall|k: int| 0 <= k < list@.len() ==> (#[trigger] list@[k]) < all@.len(),
            in_order(all@, list@),
            forall|k: int| 0 <= k < low ==> !key_before(key, key_at(all@, #[trigger] list@[k] as int)),
            forall|k: int| high <= k < list@.len() ==> key_before(key, key_at(all@, #[trigger] list@[k] as int)),
        decreases high - low,
    {
        let middle: usize = low + (high - low) / 2;
        if is_key_before(all, child, list[middle]) {
            proof {
                assert forall|k: int| middle <= k < list@.len() implies key_before(
                    key,
                    key_at(all@, #[trigger] list@[k] as int),
                ) by {
                    if k > middle {
                        assert(!key_before(key_at(all@, list@[k] as int), key_at(all@, list@[middle as int] as int)));
                        lemma_key_order(
                            key,
                            key_at(all@, list@[middle as int] as int),
                            key_at(all@, list@[k] as int),
                        );
                    }
                }
            }
            high = middle;
        } else {
            proof {
                assert forall|k: int| 0 <= k < middle + 1 implies !key_before(
                    key,
                    key_at(all@, #[trigger] list@[k] as int),
                ) by {
                    if k < middle && key_before(key, key_at(all@, list@[k] as int)) {
                        assert(!key_before(key_at(all@, list@[middle as int] as int), key_at(all@, list@[k] as int)));
                        lemma_key_order(
                            key,
                            key_at(all@, list@[k] as int),
                            key_at(all@, list@[middle as int] as int),
                        );
                    }
                }
            }
            low = middle + 1;
        }
    }
    proof {
        lemma_child_inserted(all@, list@, child, low as int);
        let after = list@.insert(low as int, child);
        assert forall|i: int, j: int| 0 <= i < j < after.len() implies !#[trigger] key_before(
            key_at(all@, after[j] as int),
            key_at(all@, after[i] as int),
        ) by {
            if j == low {
                assert(after[i] == list@[i]);
                assert(!key_before(key, key_at(all@, list@[i] as int)));
            } else if i == low {
                assert(after[j] == list@[j - 1]);
                lemma_key_order(key, key_at(all@, list@[j - 1] as int), key);
            } else {
                let x = if i < low { i } else { i - 1 };
                let y = if j < low { j } else { j - 1 };
                assert(after[i] == list@[x] && after[j] == list@[y]);
                assert(!key_before(key_at(all@, list@[y] as int), key_at(all@, list@[x] as int)));
            }
        }
    }
    low
}

/// The children of an instance in the order of class and name.
fn order_children(all: &Vec<PlaceNode>, list: &Vec<usize>) -> (ordered: Vec<usize>)
    requires
        forall|k: int| 0 <= k < list@.len() ==> (#[trigger] list@[k]) < all@.len(),
    ensures
        ordered@ == ordered_children(all@, list@),
        forall|k: int| 0 <= k < ordered@.len() ==> (#[trigger] ordered@[k]) < all@.len(),
{
    let mut ordered: Vec<usize> = Vec::new();
    let mut at: usize = 0;
    proof {
        assert(list@.take(0) =~= Seq::empty());
        assert(ordered@ =~= ordered_children(all@, list@.take(0)));
    }
    while at < list.len()
        invariant
            at <= list@.len(),
            forall|k: int| 0 <= k < list@.len() ==> (#[trigger] list@[k]) < all@.len(),
            ordered@ == ordered_children(all@, list@.take(at as int)),
            in_order(all@, ordered@),
            forall|k: int| 0 <= k < ordered@.len() ==> (#[trigger] ordered@[k]) < all@.len(),
        decreases list@.len() - at,
    {
        let ghost before = ordered@;
        let child: usize = list[at];
        let place: usize = insert_place(all, &ordered, child);
        ordered.insert(place, child);
        proof {
            assert(list@.take(at + 1).drop_last() =~= list@.take(at as int));
            assert forall|k: int| 0 <= k < ordered@.len() implies (#[trigger] ordered@[k]) < all@.len() by {
                if k < place {
                    assert(ordered@[k] == before[k]);
                } else if k > place {
                    assert(ordered@[k] == before[k - 1]);
                }
            }
        }
        at = at + 1;
    }
    proof {
        assert(list@.take(list@.len() as int) =~= list@);
    }
    ordered
}

// ---------------------------------------------------------------------------
// Children of one class and name

/// The first instance from `from` on that is not taken and has a fingerprint.
pub open spec fn first_free(
    right: Seq<usize>,
    taken: Seq<bool>,
    prints: Seq<Fingerprint>,
    print: Fingerprint,
    from: int,
) -> Option<int>
    decreases right.len() - from,
{
    if from < 0 || from >= right.len() {
        None
    } else if !taken[from] && prints[right[from] as int] == print {
        Some(from)
    } else {
        first_free(right, taken, prints, print, from + 1)
    }
}

/// What is left after each of the first instances took its likeness.
#[verifier::ext_equal]
pub struct Likeness {
    pub matching: MatchingView,
    pub taken: Seq<bool>,
    pub rest: Seq<usize>,
}

/// Each of the left instances takes the first right one with its fingerprint.
pub open spec fn likened(
    matching: MatchingView,
    left: Seq<usize>,
    right: Seq<usize>,
    left_prints: Seq<Fingerprint>,
    right_prints: Seq<Fingerprint>,
) -> Likeness
    decreases left.len(),
{
    if left.len() == 0 {
        Likeness {
            matching,
            taken: Seq::new(right.len(), |k: int| false),
            rest: Seq::empty(),
        }
    } else {
        let before = likened(matching, left.drop_last(), right, left_prints, right_prints);
        match first_free(right, before.taken, right_prints, left_prints[left.last() as int], 0) {
            Some(k) => Likeness {
                matching: before.matching.with_pair(left.last(), right[k]),
                taken: before.taken.update(k, true),
                rest: before.rest,
            },
            None => Likeness { rest: before.rest.push(left.last()), ..before },
        }
    }
}

/// The instances that are not taken.
pub open spec fn free(right: Seq<usize>, taken: Seq<bool>) -> Seq<usize>
    decreases right.len(),
{
    if right.len() == 0 {
        Seq::empty()
    } else {
        let before = free(right.drop_last(), taken);
        if taken[right.len() - 1] {
            before
        } else {
            before.push(right.last())
        }
    }
}

/// The instances of two lists paired in order.
pub open spec fn zipped(matching: MatchingView, left: Seq<usize>, right: Seq<usize>, count: nat) -> MatchingView
    decreases count,
{
    if count == 0 {
        matching
    } else {
        zipped(matching, left, right, (count - 1) as nat).with_pair(left[count - 1], right[count - 1])
    }
}

pub open spec fn shorter(left: Seq<usize>, right: Seq<usize>) -> nat {
    if left.len() < right.len() {
        left.len()
    } else {
        right.len()
    }
}

/// Instances of one class and name, paired.
pub open spec fn group_matched(
    matching: MatchingView,
    left: Seq<usize>,
    right: Seq<usize>,
    left_prints: Seq<Fingerprint>,
    right_prints: Seq<Fingerprint>,
) -> MatchingView {
    let alike = likened(matching, left, right, left_prints, right_prints);
    let others = free(right, alike.taken);
    let count = shorter(alike.rest, others);
    zipped(alike.matching, alike.rest, others, count).without(
        alike.rest.skip(count as int),
        others.skip(count as int),
    )
}

// ---------------------------------------------------------------------------
// A matching pairs each instance at most once

/// The pairs and the numbers by instance agree, so that no instance is in two
/// pairs.
pub open spec fn coherent(matching: MatchingView) -> bool {
    &&& matching.left_pair.len() <= usize::MAX
    &&& matching.right_pair.len() <= usize::MAX
    &&& forall|p: int| 0 <= p < matching.pairs.len() ==> #[trigger] pair_noted(matching, p)
    &&& forall|at: int|
        0 <= at < matching.left_pair.len() ==> (#[trigger] matching.left_pair[at] matches Some(p) ==> p
            < matching.pairs.len() && matching.pairs[p as int].0 == at)
    &&& forall|at: int|
        0 <= at < matching.right_pair.len() ==> (#[trigger] matching.right_pair[at] matches Some(p) ==> p
            < matching.pairs.len() && matching.pairs[p as int].1 == at)
}

pub open spec fn pair_noted(matching: MatchingView, p: int) -> bool {
    let (left, right) = matching.pairs[p];
    &&& left < matching.left_pair.len()
    &&& right < matching.right_pair.len()
    &&& matching.left_pair[left as int] == Some(p as usize)
    &&& matching.right_pair[right as int] == Some(p as usize)
    &&& p <= usize::MAX
}

/// Different instances, none of which is paired.
spec fn unpaired(pairs: Seq<Option<usize>>, list: Seq<usize>) -> bool {
    &&& list.no_duplicates()
    &&& forall|k: int| 0 <= k < list.len() ==> (#[trigger] list[k]) < pairs.len() && pairs[list[k] as int] is None
}

/// Numbers changed only for the listed instances.
spec fn changed_within(before: Seq<Option<usize>>, after: Seq<Option<usize>>, list: Seq<usize>) -> bool {
    &&& before.len() == after.len()
    &&& forall|at: int|
        0 <= at < before.len() && before[at] != #[trigger] after[at] ==> before[at] is None && list.contains(
            at as usize,
        )
}

/// One matching continues another by pairs of the listed instances.
spec fn continues(before: MatchingView, after: MatchingView, left: Seq<usize>, right: Seq<usize>) -> bool {
    &&& coherent(after)
    &&& changed_within(before.left_pair, after.left_pair, left)
    &&& changed_within(before.right_pair, after.right_pair, right)
    &&& before.pairs.len() <= after.pairs.len()
    &&& forall|p: int| 0 <= p < before.pairs.len() ==> #[trigger] after.pairs[p] == before.pairs[p]
}

proof fn lemma_distinct_bound(list: Seq<usize>, bound: nat)
    requires
        list.no_duplicates(),
        forall|k: int| 0 <= k < list.len() ==> (#[trigger] list[k]) < bound,
    ensures
        list.len() <= bound,
{
    let numbers = list.map_values(|at: usize| at as int);
    assert(numbers.no_duplicates()) by {
        assert forall|i: int, j: int| 0 <= i < numbers.len() && 0 <= j < numbers.len() && i != j implies numbers[i]
            != numbers[j] by {
            assert(list[i] != list[j]);
        }
    }
    numbers.unique_seq_to_set();
    vstd::set_lib::lemma_int_range(0, bound as int);
    assert(numbers.to_set().subset_of(vstd::set_lib::set_int_range(0, bound as int))) by {
        assert forall|n: int| numbers.to_set().contains(n) implies vstd::set_lib::set_int_range(
            0,
            bound as int,
        ).contains(n) by {
            let k = numbers.index_of(n);
            assert(list[k] < bound);
        }
    }
    vstd::set_lib::lemma_len_subset(numbers.to_set(), vstd::set_lib::set_int_range(0, bound as int));
}

/// There are no more pairs than instances, and fewer where one is unpaired.
proof fn lemma_pair_bound(matching: MatchingView, spare: Option<usize>)
    requires
        coherent(matching),
        spare matches Some(at) ==> at < matching.left_pair.len() && matching.left_pair[at as int] is None,
    ensures
        matching.pairs.len() <= matching.left_pair.len(),
        spare is Some ==> matching.pairs.len() < matching.left_pair.len(),
{
    let lefts = matching.pairs.map_values(|pair: (usize, usize)| pair.0);
    assert forall|i: int, j: int| 0 <= i < lefts.len() && 0 <= j < lefts.len() && i != j implies lefts[i] != lefts[j] by {
        assert(pair_noted(matching, i));
        assert(pair_noted(matching, j));
    }
    assert forall|k: int| 0 <= k < lefts.len() implies (#[trigger] lefts[k]) < matching.left_pair.len() by {
        assert(pair_noted(matching, k));
    }
    lemma_distinct_bound(lefts, matching.left_pair.len());
    match spare {
        Some(at) => {
            let more = lefts.push(at);
            assert forall|i: int, j: int| 0 <= i < more.len() && 0 <= j < more.len() && i != j implies more[i]
                != more[j] by {
                if i < lefts.len() {
                    assert(pair_noted(matching, i));
                }
                if j < lefts.len() {
                    assert(pair_noted(matching, j));
                }
            }
            assert forall|k: int| 0 <= k < more.len() implies (#[trigger] more[k]) < matching.left_pair.len() by {
                if k < lefts.len() {
                    assert(pair_noted(matching, k));
                }
            }
            lemma_distinct_bound(more, matching.left_pair.len());
        },
        None => {},
    }
}

proof fn lemma_with_pair(matching: MatchingView, left: usize, right: usize)
    requires
        coherent(matching),
        left < matching.left_pair.len(),
        right < matching.right_pair.len(),
        matching.left_pair[left as int] is None,
        matching.right_pair[right as int] is None,
    ensures
        continues(matching, matching.with_pair(left, right), seq![left], seq![right]),
        matching.pairs.len() < usize::MAX,
{
    lemma_pair_bound(matching, Some(left));
    let after = matching.with_pair(left, right);
    assert forall|p: int| 0 <= p < after.pairs.len() implies #[trigger] pair_noted(after, p) by {
        if p < matching.pairs.len() {
            assert(pair_noted(matching, p));
        }
    }
    assert(seq![left][0] == left);
    assert(seq![right][0] == right);
}

proof fn lemma_continues_chain(
    a: MatchingView,
    b: MatchingView,
    c: MatchingView,
    left: Seq<usize>,
    right: Seq<usize>,
    more_left: Seq<usize>,
    more_right: Seq<usize>,
    all_left: Seq<usize>,
    all_right: Seq<usize>,
)
    requires
        continues(a, b, left, right),
        continues(b, c, more_left, more_right),
        forall|at: usize| left.contains(at) || more_left.contains(at) ==> #[trigger] all_left.contains(at),
        forall|at: usize| right.contains(at) || more_right.contains(at) ==> #[trigger] all_right.contains(at),
    ensures
        continues(a, c, all_left, all_right),
{
    assert forall|at: int|
        0 <= at < a.left_pair.len() && a.left_pair[at] != #[trigger] c.left_pair[at] implies a.left_pair[at] is None
        && all_left.contains(at as usize) by {
        let _ = b.left_pair[at];
    }
    assert forall|at: int|
        0 <= at < a.right_pair.len() && a.right_pair[at] != #[trigger] c.right_pair[at] implies a.right_pair[at] is None
        && all_right.contains(at as usize) by {
        let _ = b.right_pair[at];
    }
    assert forall|p: int| 0 <= p < a.pairs.len() implies #[trigger] c.pairs[p] == a.pairs[p] by {
        assert(b.pairs[p] == a.pairs[p]);
    }
}

proof fn lemma_first_free(
    right: Seq<usize>,
    taken: Seq<bool>,
    prints: Seq<Fingerprint>,
    print: Fingerprint,
    from: int,
)
    requires
        0 <= from,
    ensures
        first_free(right, taken, prints, print, from) matches Some(k) ==> from <= k < right.len() && !taken[k],
    decreases right.len() - from,
{
    if from < right.len() && !(!taken[from] && prints[right[from] as int] == print) {
        lemma_first_free(right, taken, prints, print, from + 1);
    }
}

/// What is left after likenesses were paired is unpaired.
spec fn likeness_sound(matching: MatchingView, left: Seq<usize>, right: Seq<usize>, alike: Likeness) -> bool {
    &&& continues(matching, alike.matching, left, right)
    &&& alike.taken.len() == right.len()
    &&& forall|k: int|
        0 <= k < right.len() && !(#[trigger] alike.taken[k]) ==> alike.matching.right_pair[right[k] as int] is None
    &&& unpaired(alike.matching.left_pair, alike.rest)
    &&& forall|k: int| 0 <= k < alike.rest.len() ==> left.contains(#[trigger] alike.rest[k])
}

proof fn lemma_likened(
    matching: MatchingView,
    left: Seq<usize>,
    right: Seq<usize>,
    left_prints: Seq<Fingerprint>,
    right_prints: Seq<Fingerprint>,
)
    requires
        coherent(matching),
        unpaired(matching.left_pair, left),
        unpaired(matching.right_pair, right),
    ensures
        likeness_sound(matching, left, right, likened(matching, left, right, left_prints, right_prints)),
    decreases left.len(),
{
    let alike = likened(matching, left, right, left_prints, right_prints);
    if left.len() == 0 {
        assert forall|k: int| 0 <= k < right.len() implies alike.matching.right_pair[#[trigger] right[k] as int] is None by {}
    } else {
        let shorter_left = left.drop_last();
        let last = left.last();
        assert forall|i: int, j: int|
            0 <= i < shorter_left.len() && 0 <= j < shorter_left.len() && i != j implies shorter_left[i]
            != shorter_left[j] by {
            assert(left[i] != left[j]);
        }
        assert forall|k: int| 0 <= k < shorter_left.len() implies (#[trigger] shorter_left[k])
            < matching.left_pair.len() && matching.left_pair[shorter_left[k] as int] is None by {
            assert(left[k] == shorter_left[k]);
        }
        lemma_likened(matching, shorter_left, right, left_prints, right_prints);
        let before = likened(matching, shorter_left, right, left_prints, right_prints);
        assert(left[left.len() - 1] == last);
        assert(!shorter_left.contains(last)) by {
            if shorter_left.contains(last) {
                let k = shorter_left.index_of(last);
                assert(left[k] == left[left.len() - 1]);
            }
        }
        assert(before.matching.left_pair[last as int] is None);
        assert forall|at: usize| shorter_left.contains(at) || seq![last].contains(at) implies #[trigger] left.contains(
            at,
        ) by {
            if shorter_left.contains(at) {
                let k = shorter_left.index_of(at);
                assert(left[k] == at);
            } else {
                assert(left[left.len() - 1] == at);
            }
        }
        lemma_first_free(right, before.taken, right_prints, left_prints[last as int], 0);
        match first_free(right, before.taken, right_prints, left_prints[last as int], 0) {
            Some(k) => {
                let chosen = right[k];
                assert(before.matching.right_pair[chosen as int] is None);
                lemma_with_pair(before.matching, last, chosen);
                assert(right.contains(chosen));
                lemma_continues_chain(
                    matching,
                    before.matching,
                    alike.matching,
                    shorter_left,
                    right,
                    seq![last],
                    seq![chosen],
                    left,
                    right,
                );
                assert forall|j: int| 0 <= j < right.len() && !(#[trigger] alike.taken[j]) implies alike.matching.right_pair[right[j] as int] is None by {
                    assert(!before.taken[j]);
                    assert(right[j] != right[k]);
                }
                assert forall|j: int| 0 <= j < alike.rest.len() implies (#[trigger] alike.rest[j])
                    < alike.matching.left_pair.len() && alike.matching.left_pair[alike.rest[j] as int] is None by {
                    assert(before.rest[j] == alike.rest[j]);
                    assert(shorter_left.contains(before.rest[j]));
                }
            },
            None => {
                assert forall|i: int, j: int|
                    0 <= i < alike.rest.len() && 0 <= j < alike.rest.len() && i != j implies alike.rest[i]
                    != alike.rest[j] by {
                    if i < before.rest.len() {
                        assert(shorter_left.contains(before.rest[i]));
                    }
                    if j < before.rest.len() {
                        assert(shorter_left.contains(before.rest[j]));
                    }
                }
                assert forall|j: int| 0 <= j < alike.rest.len() implies left.contains(#[trigger] alike.rest[j]) && alike.rest[j]
                    < alike.matching.left_pair.len() && alike.matching.left_pair[alike.rest[j] as int] is None by {
                    if j < before.rest.len() {
                        assert(shorter_left.contains(before.rest[j]));
                    }
                }
                assert(continues(matching, alike.matching, left, right)) by {
                    assert forall|at: int|
                        0 <= at < matching.left_pair.len() && matching.left_pair[at]
                            != #[trigger] alike.matching.left_pair[at] implies left.contains(at as usize) by {
                        assert(shorter_left.contains(at as usize));
                    }
                }
            },
        }
    }
}

proof fn lemma_free(right: Seq<usize>, taken: Seq<bool>, pairs: Seq<Option<usize>>)
    requires
        right.len() <= taken.len(),
        right.no_duplicates(),
        forall|k: int| 0 <= k < right.len() ==> (#[trigger] right[k]) < pairs.len(),
        forall|k: int| 0 <= k < right.len() && !(#[trigger] taken[k]) ==> pairs[right[k] as int] is None,
    ensures
        unpaired(pairs, free(right, taken)),
        forall|k: int| 0 <= k < free(right, taken).len() ==> right.contains(#[trigger] free(right, taken)[k]),
    decreases right.len(),
{
    if right.len() > 0 {
        let before = right.drop_last();
        assert forall|i: int, j: int| 0 <= i < before.len() && 0 <= j < before.len() && i != j implies before[i]
            != before[j] by {
            assert(right[i] != right[j]);
        }
        assert forall|k: int| 0 <= k < before.len() && !(#[trigger] taken[k]) implies pairs[before[k] as int] is None by {
            assert(right[k] == before[k]);
        }
        assert forall|k: int| 0 <= k < before.len() implies (#[trigger] before[k]) < pairs.len() by {
            assert(right[k] == before[k]);
        }
        lemma_free(before, taken, pairs);
        let list = free(right, taken);
        let shorter_list = free(before, taken);
        assert forall|k: int| 0 <= k < list.len() implies right.contains(#[trigger] list[k]) && list[k] < pairs.len()
            && pairs[list[k] as int] is None by {
            if k < shorter_list.len() {
                assert(before.contains(shorter_list[k]));
                let j = before.index_of(shorter_list[k]);
                assert(right[j] == list[k]);
            } else {
                assert(right[right.len() - 1] == list[k]);
                assert(!taken[right.len() - 1]);
            }
        }
        assert forall|i: int, j: int| 0 <= i < list.len() && 0 <= j < list.len() && i != j implies list[i] != list[j] by {
            if i < shorter_list.len() {
                assert(before.contains(shorter_list[i]));
                let k = before.index_of(shorter_list[i]);
                assert(right[k] == list[i]);
            }
            if j < shorter_list.len() {
                assert(before.contains(shorter_list[j]));
                let k = before.index_of(shorter_list[j]);
                assert(right[k] == list[j]);
            }
        }
    }
}

proof fn lemma_zipped(matching: MatchingView, left: Seq<usize>, right: Seq<usize>, count: nat)
    requires
        coherent(matching),
        unpaired(matching.left_pair, left),
        unpaired(matching.right_pair, right),
        count <= left.len(),
        count <= right.len(),
    ensures
        continues(matching, zipped(matching, left, right, count), left.take(count as int), right.take(count as int)),
    decreases count,
{
    if count > 0 {
        let before = zipped(matching, left, right, (count - 1) as nat);
        lemma_zipped(matching, left, right, (count - 1) as nat);
        let done_left = left.take(count - 1);
        let done_right = right.take(count - 1);
        let l = left[count - 1];
        let r = right[count - 1];
        assert(!done_left.contains(l)) by {
            if done_left.contains(l) {
                let k = done_left.index_of(l);
                assert(left[k] == left[count - 1]);
            }
        }
        assert(!done_right.contains(r)) by {
            if done_right.contains(r) {
                let k = done_right.index_of(r);
                assert(right[k] == right[count - 1]);
            }
        }
        assert(before.left_pair[l as int] is None);
        assert(before.right_pair[r as int] is None);
        lemma_with_pair(before, l, r);
        assert forall|at: usize| done_left.contains(at) || seq![l].contains(at) implies #[trigger] left.take(
            count as int,
        ).contains(at) by {
            if done_left.contains(at) {
                let k = done_left.index_of(at);
                assert(left.take(count as int)[k] == at);
            } else {
                assert(left.take(count as int)[count - 1] == at);
            }
        }
        assert forall|at: usize| done_right.contains(at) || seq![r].contains(at) implies #[trigger] right.take(
            count as int,
        ).contains(at) by {
            if done_right.contains(at) {
                let k = done_right.index_of(at);
                assert(right.take(count as int)[k] == at);
            } else {
                assert(right.take(count as int)[count - 1] == at);
            }
        }
        lemma_continues_chain(
            matching,
            before,
            zipped(matching, left, right, count),
            done_left,
            done_right,
            seq![l],
            seq![r],
            left.take(count as int),
            right.take(count as int),
        );
    }
}

proof fn lemma_group(
    matching: MatchingView,
    left: Seq<usize>,
    right: Seq<usize>,
    left_prints: Seq<Fingerprint>,
    right_prints: Seq<Fingerprint>,
)
    requires
        coherent(matching),
        unpaired(matching.left_pair, left),
        unpaired(matching.right_pair, right),
    ensures
        continues(matching, group_matched(matching, left, right, left_prints, right_prints), left, right),
{
    lemma_likened(matching, left, right, left_prints, right_prints);
    let alike = likened(matching, left, right, left_prints, right_prints);
    assert forall|k: int| 0 <= k < right.len() implies (#[trigger] right[k]) < alike.matching.right_pair.len() by {}
    lemma_free(right, alike.taken, alike.matching.right_pair);
    let others = free(right, alike.taken);
    let count = shorter(alike.rest, others);
    lemma_zipped(alike.matching, alike.rest, others, count);
    let done = zipped(alike.matching, alike.rest, others, count);
    assert forall|at: usize| left.contains(at) || alike.rest.take(count as int).contains(at) implies #[trigger] left.contains(
        at,
    ) by {
        if alike.rest.take(count as int).contains(at) {
            let k = alike.rest.take(count as int).index_of(at);
            assert(left.contains(alike.rest[k]));
        }
    }
    assert forall|at: usize| right.contains(at) || others.take(count as int).contains(at) implies #[trigger] right.contains(
        at,
    ) by {
        if others.take(count as int).contains(at) {
            let k = others.take(count as int).index_of(at);
            assert(right.contains(others[k]));
        }
    }
    lemma_continues_chain(
        matching,
        alike.matching,
        done,
        left,
        right,
        alike.rest.take(count as int),
        others.take(count as int),
        left,
        right,
    );
    let all = group_matched(matching, left, right, left_prints, right_prints);
    assert forall|p: int| 0 <= p < all.pairs.len() implies #[trigger] pair_noted(all, p) by {
        assert(pair_noted(done, p));
    }
    assert forall|p: int| 0 <= p < matching.pairs.len() implies #[trigger] all.pairs[p] == matching.pairs[p] by {
        assert(done.pairs[p] == matching.pairs[p]);
    }
}

// ---------------------------------------------------------------------------
// Children of one pair

/// Where the instances of a class and name end in an ordered list.
pub open spec fn run_end(all: Seq<PlaceNode>, list: Seq<usize>, key: NodeKey, from: int) -> int
    decreases list.len() - from,
{
    if from < list.len() && key_at(all, list[from] as int) == key {
        run_end(all, list, key, from + 1)
    } else {
        from
    }
}

pub proof fn lemma_run_end(all: Seq<PlaceNode>, list: Seq<usize>, key: NodeKey, from: int)
    requires
        from <= list.len(),
    ensures
        from <= run_end(all, list, key, from) <= list.len(),
    decreases list.len() - from,
{
    if from < list.len() && key_at(all, list[from] as int) == key {
        lemma_run_end(all, list, key, from + 1);
    }
}

/// The fingerprints by which instances are paired.
pub struct Sides {
    pub left: Seq<PlaceNode>,
    pub right: Seq<PlaceNode>,
    pub left_prints: Seq<Fingerprint>,
    pub right_prints: Seq<Fingerprint>,
}

/// The children of a pair from two positions in their ordered lists on, paired
/// class by class and name by name.
pub open spec fn merged(
    sides: Sides,
    matching: MatchingView,
    left: Seq<usize>,
    right: Seq<usize>,
    l: int,
    r: int,
) -> MatchingView
    decreases left.len() + right.len() - l - r,
    when 0 <= l <= left.len() && 0 <= r <= right.len()
{
    if l >= left.len() && r >= right.len() {
        matching
    } else if r >= right.len() {
        merged(sides, matching.without(seq![left[l]], Seq::empty()), left, right, l + 1, r)
    } else if l >= left.len() {
        merged(sides, matching.without(Seq::empty(), seq![right[r]]), left, right, l, r + 1)
    } else {
        let left_key = key_at(sides.left, left[l] as int);
        let right_key = key_at(sides.right, right[r] as int);
        if key_before(left_key, right_key) {
            merged(sides, matching.without(seq![left[l]], Seq::empty()), left, right, l + 1, r)
        } else if key_before(right_key, left_key) {
            merged(sides, matching.without(Seq::empty(), seq![right[r]]), left, right, l, r + 1)
        } else {
            let left_end = run_end(sides.left, left, left_key, l + 1);
            let right_end = run_end(sides.right, right, right_key, r + 1);
            proof {
                lemma_run_end(sides.left, left, left_key, l + 1);
                lemma_run_end(sides.right, right, right_key, r + 1);
            }
            merged(
                sides,
                group_matched(
                    matching,
                    left.subrange(l, left_end),
                    right.subrange(r, right_end),
                    sides.left_prints,
                    sides.right_prints,
                ),
                left,
                right,
                left_end,
                right_end,
            )
        }
    }
}

/// The pairs of the listed instances that have one.
pub open spec fn pair_sequence(pairs: Seq<Option<usize>>, list: Seq<usize>) -> Seq<usize>
    decreases list.len(),
{
    if list.len() == 0 {
        Seq::empty()
    } else {
        let before = pair_sequence(pairs, list.drop_last());
        match pairs[list.last() as int] {
            Some(pair) => before.push(pair),
            None => before,
        }
    }
}

/// A matching after the children of a pair were paired.
pub open spec fn stepped(sides: Sides, matching: MatchingView, cursor: int) -> MatchingView {
    let (l, r) = matching.pairs[cursor];
    let left = sides.left[l as int].children@;
    let right = sides.right[r as int].children@;
    let after = merged(
        sides,
        matching,
        ordered_children(sides.left, left),
        ordered_children(sides.right, right),
        0,
        0,
    );
    if pair_sequence(after.left_pair, left) == pair_sequence(after.right_pair, right) {
        after
    } else {
        MatchingView { order_changes: after.order_changes.push((l, r)), ..after }
    }
}

/// The matching that pairs the roots.
pub open spec fn roots_matched(left: nat, right: nat) -> MatchingView {
    MatchingView {
        pairs: seq![(0usize, 0usize)],
        left_pair: Seq::new(
            left,
            |k: int|
                if k == 0 {
                    Some(0usize)
                } else {
                    None
                },
        ),
        right_pair: Seq::new(
            right,
            |k: int|
                if k == 0 {
                    Some(0usize)
                } else {
                    None
                },
        ),
        left_unmatched: Seq::empty(),
        right_unmatched: Seq::empty(),
        order_changes: Seq::empty(),
    }
}

/// The matching after the children of the first pairs were paired.
pub open spec fn walked(sides: Sides, steps: nat) -> MatchingView
    decreases steps,
{
    if steps == 0 {
        roots_matched(sides.left.len(), sides.right.len())
    } else {
        let before = walked(sides, (steps - 1) as nat);
        if steps - 1 < before.pairs.len() {
            stepped(sides, before, steps - 1)
        } else {
            before
        }
    }
}

/// Which instances are which, after the children of every pair were paired. No
/// matching has more pairs than the left place has instances.
pub open spec fn matched(sides: Sides) -> MatchingView {
    walked(sides, sides.left.len())
}

pub open spec fn sides_shaped(sides: Sides) -> bool {
    &&& shaped(sides.left)
    &&& shaped(sides.right)
    &&& sides.left_prints.len() == sides.left.len()
    &&& sides.right_prints.len() == sides.right.len()
}

proof fn lemma_skip_unpaired(before: Seq<Option<usize>>, after: Seq<Option<usize>>, list: Seq<usize>, from: int, to: int)
    requires
        0 <= from <= to <= list.len(),
        unpaired(before, list.skip(from)),
        changed_within(before, after, list.subrange(from, to)),
    ensures
        unpaired(after, list.skip(to)),
{
    let rest = list.skip(to);
    let whole = list.skip(from);
    assert forall|i: int, j: int| 0 <= i < rest.len() && 0 <= j < rest.len() && i != j implies rest[i] != rest[j] by {
        assert(rest[i] == whole[i + to - from] && rest[j] == whole[j + to - from]);
    }
    assert forall|k: int| 0 <= k < rest.len() implies (#[trigger] rest[k]) < after.len()
        && after[rest[k] as int] is None by {
        assert(rest[k] == whole[k + to - from]);
        let at = rest[k] as int;
        if before[at] != after[at] {
            assert(list.subrange(from, to).contains(rest[k]));
            let j = list.subrange(from, to).index_of(rest[k]);
            assert(whole[j] == whole[k + to - from]);
        }
    }
}

proof fn lemma_merged(
    sides: Sides,
    matching: MatchingView,
    left: Seq<usize>,
    right: Seq<usize>,
    l: int,
    r: int,
)
    requires
        0 <= l <= left.len(),
        0 <= r <= right.len(),
        coherent(matching),
        unpaired(matching.left_pair, left.skip(l)),
        unpaired(matching.right_pair, right.skip(r)),
    ensures
        continues(matching, merged(sides, matching, left, right, l, r), left, right),
    decreases left.len() + right.len() - l - r,
{
    if l < left.len() || r < right.len() {
        let left_key = key_at(sides.left, left[l] as int);
        let right_key = key_at(sides.right, right[r] as int);
        let take_left = r >= right.len() || (l < left.len() && key_before(left_key, right_key));
        let take_right = !take_left && (l >= left.len() || key_before(right_key, left_key));
        if take_left {
            let next = matching.without(seq![left[l]], Seq::empty());
            assert forall|p: int| 0 <= p < next.pairs.len() implies #[trigger] pair_noted(next, p) by {
                assert(pair_noted(matching, p));
            }
            lemma_skip_unpaired(matching.left_pair, next.left_pair, left, l, l + 1);
            lemma_merged(sides, next, left, right, l + 1, r);
            lemma_same_pairs(matching, next, merged(sides, next, left, right, l + 1, r), left, right);
        } else if take_right {
            let next = matching.without(Seq::empty(), seq![right[r]]);
            assert forall|p: int| 0 <= p < next.pairs.len() implies #[trigger] pair_noted(next, p) by {
                assert(pair_noted(matching, p));
            }
            lemma_skip_unpaired(matching.right_pair, next.right_pair, right, r, r + 1);
            lemma_merged(sides, next, left, right, l, r + 1);
            lemma_same_pairs(matching, next, merged(sides, next, left, right, l, r + 1), left, right);
        } else {
            let left_end = run_end(sides.left, left, left_key, l + 1);
            let right_end = run_end(sides.right, right, right_key, r + 1);
            lemma_run_end(sides.left, left, left_key, l + 1);
            lemma_run_end(sides.right, right, right_key, r + 1);
            let left_group = left.subrange(l, left_end);
            let right_group = right.subrange(r, right_end);
            lemma_part_unpaired(matching.left_pair, left, l, left_end);
            lemma_part_unpaired(matching.right_pair, right, r, right_end);
            lemma_group(matching, left_group, right_group, sides.left_prints, sides.right_prints);
            let next = group_matched(matching, left_group, right_group, sides.left_prints, sides.right_prints);
            lemma_skip_unpaired(matching.left_pair, next.left_pair, left, l, left_end);
            lemma_skip_unpaired(matching.right_pair, next.right_pair, right, r, right_end);
            lemma_merged(sides, next, left, right, left_end, right_end);
            assert forall|at: usize| left_group.contains(at) || left.contains(at) implies #[trigger] left.contains(at) by {
                if left_group.contains(at) {
                    let k = left_group.index_of(at);
                    assert(left[k + l] == at);
                }
            }
            assert forall|at: usize| right_group.contains(at) || right.contains(at) implies #[trigger] right.contains(at) by {
                if right_group.contains(at) {
                    let k = right_group.index_of(at);
                    assert(right[k + r] == at);
                }
            }
            lemma_continues_chain(
                matching,
                next,
                merged(sides, next, left, right, left_end, right_end),
                left_group,
                right_group,
                left,
                right,
                left,
                right,
            );
        }
    }
}

proof fn lemma_same_pairs(
    a: MatchingView,
    b: MatchingView,
    c: MatchingView,
    left: Seq<usize>,
    right: Seq<usize>,
)
    requires
        continues(b, c, left, right),
        a.pairs == b.pairs,
        a.left_pair == b.left_pair,
        a.right_pair == b.right_pair,
    ensures
        continues(a, c, left, right),
{
}

proof fn lemma_part_unpaired(pairs: Seq<Option<usize>>, list: Seq<usize>, from: int, to: int)
    requires
        0 <= from <= to <= list.len(),
        unpaired(pairs, list.skip(from)),
    ensures
        unpaired(pairs, list.subrange(from, to)),
{
    let part = list.subrange(from, to);
    let whole = list.skip(from);
    assert forall|i: int, j: int| 0 <= i < part.len() && 0 <= j < part.len() && i != j implies part[i] != part[j] by {
        assert(part[i] == whole[i] && part[j] == whole[j]);
    }
    assert forall|k: int| 0 <= k < part.len() implies (#[trigger] part[k]) < pairs.len() && pairs[part[k] as int] is None by {
        assert(part[k] == whole[k]);
    }
}

proof fn lemma_child_inserted_members(all: Seq<PlaceNode>, list: Seq<usize>, child: usize)
    requires
        list.no_duplicates(),
        !list.contains(child),
    ensures
        child_inserted(all, list, child).no_duplicates(),
        forall|at: usize| #[trigger]
            child_inserted(all, list, child).contains(at) <==> list.contains(at) || at == child,
    decreases list.len(),
{
    let after = child_inserted(all, list, child);
    if list.len() == 0 {
        assert(after[0] == child);
    } else if key_before(key_at(all, child as int), key_at(all, list.last() as int)) {
        let shorter_list = list.drop_last();
        assert(shorter_list.no_duplicates());
        assert(!shorter_list.contains(child)) by {
            if shorter_list.contains(child) {
                let k = shorter_list.index_of(child);
                assert(list[k] == child);
            }
        }
        lemma_child_inserted_members(all, shorter_list, child);
        let before = child_inserted(all, shorter_list, child);
        assert(!before.contains(list.last())) by {
            assert(list[list.len() - 1] == list.last());
            assert(list.contains(list.last()));
            if shorter_list.contains(list.last()) {
                let k = shorter_list.index_of(list.last());
                assert(list[k] == list[list.len() - 1]);
            }
        }
        lemma_pushed(before, list.last());
        assert forall|at: usize| #[trigger] after.contains(at) <==> list.contains(at) || at == child by {
            assert(before.contains(at) <==> shorter_list.contains(at) || at == child);
            lemma_pushed(shorter_list, list.last());
            assert(shorter_list.push(list.last()) =~= list);
        }
    } else {
        lemma_pushed(list, child);
    }
}

proof fn lemma_pushed(list: Seq<usize>, more: usize)
    ensures
        forall|at: usize| #[trigger] list.push(more).contains(at) <==> list.contains(at) || at == more,
        list.no_duplicates() && !list.contains(more) ==> list.push(more).no_duplicates(),
{
    let after = list.push(more);
    assert forall|at: usize| #[trigger] after.contains(at) <==> list.contains(at) || at == more by {
        if list.contains(at) {
            let k = list.index_of(at);
            assert(after[k] == at);
        }
        assert(after[list.len() as int] == more);
        if after.contains(at) {
            let k = after.index_of(at);
            if k < list.len() {
                assert(list[k] == at);
            }
        }
    }
    if list.no_duplicates() && !list.contains(more) {
        assert forall|i: int, j: int| 0 <= i < after.len() && 0 <= j < after.len() && i != j implies after[i]
            != after[j] by {
            if i < list.len() {
                assert(list.contains(list[i]));
            }
            if j < list.len() {
                assert(list.contains(list[j]));
            }
        }
    }
}

proof fn lemma_ordered_members(all: Seq<PlaceNode>, list: Seq<usize>)
    requires
        list.no_duplicates(),
    ensures
        ordered_children(all, list).no_duplicates(),
        forall|at: usize| #[trigger] ordered_children(all, list).contains(at) <==> list.contains(at),
    decreases list.len(),
{
    if list.len() > 0 {
        let before = list.drop_last();
        lemma_ordered_members(all, before);
        lemma_pushed(before, list.last());
        assert(before.push(list.last()) =~= list);
        assert(!before.contains(list.last())) by {
            if before.contains(list.last()) {
                let k = before.index_of(list.last());
                assert(list[k] == list[list.len() - 1]);
            }
        }
        assert(!ordered_children(all, before).contains(list.last()));
        lemma_child_inserted_members(all, ordered_children(all, before), list.last());
    }
}

/// Every paired instance hangs below a pair whose children were paired.
spec fn hung_below(all: Seq<PlaceNode>, pairs: Seq<Option<usize>>, cursor: int) -> bool {
    forall|at: int|
        0 < at < all.len() && (#[trigger] pairs[at]) is Some ==> (all[at].parent matches Some(parent)
            && pairs[parent as int] matches Some(p) && p < cursor)
}

proof fn lemma_children_unpaired(all: Seq<PlaceNode>, pairs: Seq<Option<usize>>, cursor: int, at: int)
    requires
        shaped(all),
        pairs.len() == all.len(),
        0 <= at < all.len(),
        0 <= cursor <= usize::MAX,
        pairs[at] == Some(cursor as usize),
        hung_below(all, pairs, cursor),
    ensures
        unpaired(pairs, ordered_children(all, all[at].children@)),
        all[at].children@.no_duplicates(),
        forall|k: int| 0 <= k < all[at].children@.len() ==> (#[trigger] all[at].children@[k]) < all.len(),
{
    let list = all[at].children@;
    assert(placed(all, at));
    assert forall|i: int, j: int| 0 <= i < list.len() && 0 <= j < list.len() && i != j implies list[i] != list[j] by {
        if i < j {
            assert(list[i] < list[j]);
        } else {
            assert(list[j] < list[i]);
        }
    }
    assert forall|k: int| 0 <= k < list.len() implies (#[trigger] list[k]) < all.len() && pairs[list[k] as int] is None by {
        assert(is_child(all, at, k, list[k] as int));
        let _ = pairs[list[k] as int];
    }
    lemma_ordered_members(all, list);
    let ordered = ordered_children(all, list);
    assert forall|k: int| 0 <= k < ordered.len() implies (#[trigger] ordered[k]) < pairs.len()
        && pairs[ordered[k] as int] is None by {
        assert(ordered.contains(ordered[k]));
        let j = list.index_of(ordered[k]);
        assert(list[j] == ordered[k]);
    }
}

proof fn lemma_hung_step(
    all: Seq<PlaceNode>,
    before: Seq<Option<usize>>,
    after: Seq<Option<usize>>,
    cursor: int,
    at: int,
)
    requires
        shaped(all),
        before.len() == all.len(),
        0 <= at < all.len(),
        0 <= cursor < usize::MAX,
        before[at] == Some(cursor as usize),
        hung_below(all, before, cursor),
        changed_within(before, after, ordered_children(all, all[at].children@)),
        all[at].children@.no_duplicates(),
    ensures
        hung_below(all, after, cursor + 1),
{
    lemma_ordered_members(all, all[at].children@);
    assert(placed(all, at));
    assert forall|k: int| 0 < k < all.len() && (#[trigger] after[k]) is Some implies (all[k].parent matches Some(parent)
        && after[parent as int] matches Some(p) && p < cursor + 1) by {
        assert(placed(all, k));
        if before[k] == after[k] {
            let parent = all[k].parent->0 as int;
            let _ = before[parent];
            let _ = after[parent];
        } else {
            let list = all[at].children@;
            assert(ordered_children(all, list).contains(k as usize));
            assert(list.contains(k as usize));
            let j = list.index_of(k as usize);
            assert(is_child(all, at, j, list[j] as int));
            let _ = after[at];
        }
    }
}

/// The state of a walk between two pairs.
spec fn walk_sound(sides: Sides, matching: MatchingView, cursor: int) -> bool {
    &&& coherent(matching)
    &&& matching.left_pair.len() == sides.left.len()
    &&& matching.right_pair.len() == sides.right.len()
    &&& 0 <= cursor <= matching.pairs.len()
    &&& hung_below(sides.left, matching.left_pair, cursor)
    &&& hung_below(sides.right, matching.right_pair, cursor)
}

proof fn lemma_stepped(sides: Sides, matching: MatchingView, cursor: int)
    requires
        sides_shaped(sides),
        walk_sound(sides, matching, cursor),
        cursor < matching.pairs.len(),
    ensures
        walk_sound(sides, stepped(sides, matching, cursor), cursor + 1),
        stepped(sides, matching, cursor).pairs.len() >= matching.pairs.len(),
{
    assert(pair_noted(matching, cursor));
    let (l, r) = matching.pairs[cursor];
    let left = sides.left[l as int].children@;
    let right = sides.right[r as int].children@;
    lemma_children_unpaired(sides.left, matching.left_pair, cursor, l as int);
    lemma_children_unpaired(sides.right, matching.right_pair, cursor, r as int);
    let ordered_left = ordered_children(sides.left, left);
    let ordered_right = ordered_children(sides.right, right);
    assert(ordered_left.skip(0) =~= ordered_left);
    assert(ordered_right.skip(0) =~= ordered_right);
    lemma_merged(sides, matching, ordered_left, ordered_right, 0, 0);
    let after = merged(sides, matching, ordered_left, ordered_right, 0, 0);
    lemma_pair_bound(matching, None);
    lemma_hung_step(sides.left, matching.left_pair, after.left_pair, cursor, l as int);
    lemma_hung_step(sides.right, matching.right_pair, after.right_pair, cursor, r as int);
    let done = stepped(sides, matching, cursor);
    assert forall|p: int| 0 <= p < done.pairs.len() implies #[trigger] pair_noted(done, p) by {
        assert(pair_noted(after, p));
    }
}

proof fn lemma_walked(sides: Sides, steps: nat)
    requires
        sides_shaped(sides),
    ensures
        coherent(walked(sides, steps)),
        walked(sides, steps).left_pair.len() == sides.left.len(),
        walked(sides, steps).right_pair.len() == sides.right.len(),
        steps <= walked(sides, steps).pairs.len() ==> walk_sound(sides, walked(sides, steps), steps as int),
        walked(sides, steps).pairs.len() >= 1,
        steps > 0 ==> walked(sides, steps).pairs.len() >= walked(sides, (steps - 1) as nat).pairs.len(),
    decreases steps,
{
    if steps == 0 {
        let start = walked(sides, 0);
        assert(pair_noted(start, 0));
        assert(start.pairs[0] == (0usize, 0usize));
    } else {
        lemma_walked(sides, (steps - 1) as nat);
        let before = walked(sides, (steps - 1) as nat);
        if steps - 1 < before.pairs.len() {
            lemma_stepped(sides, before, steps - 1);
        }
    }
}

/// Once the children of every pair were paired nothing changes any more.
proof fn lemma_walk_ends(sides: Sides, steps: nat, later: nat)
    requires
        steps <= later,
        walked(sides, steps).pairs.len() <= steps,
    ensures
        walked(sides, later) == walked(sides, steps),
    decreases later,
{
    if steps < later {
        lemma_walk_ends(sides, steps, (later - 1) as nat);
    }
}

/// A matching pairs each instance at most once: no two pairs share an instance
/// of either place.
pub proof fn law_instances_are_paired_once(sides: Sides, p: int, q: int)
    requires
        sides_shaped(sides),
        0 <= p < matched(sides).pairs.len(),
        0 <= q < matched(sides).pairs.len(),
        p != q,
    ensures
        matched(sides).pairs[p].0 != matched(sides).pairs[q].0,
        matched(sides).pairs[p].1 != matched(sides).pairs[q].1,
{
    lemma_walked(sides, sides.left.len());
    assert(pair_noted(matched(sides), p));
    assert(pair_noted(matched(sides), q));
}

// ---------------------------------------------------------------------------
// A place and itself

/// Every instance that is paired is paired with itself, and none is left out or moved.
pub open spec fn mirrored(matching: MatchingView) -> bool {
    &&& matching.left_pair == matching.right_pair
    &&& forall|p: int| 0 <= p < matching.pairs.len() ==> (#[trigger] matching.pairs[p]).0 == matching.pairs[p].1
    &&& matching.left_unmatched.len() == 0
    &&& matching.right_unmatched.len() == 0
    &&& matching.order_changes.len() == 0
}

proof fn lemma_free_at(
    right: Seq<usize>,
    taken: Seq<bool>,
    prints: Seq<Fingerprint>,
    print: Fingerprint,
    from: int,
    place: int,
)
    requires
        0 <= from <= place < right.len(),
        forall|k: int| from <= k < place ==> #[trigger] taken[k],
        !taken[place],
        prints[right[place] as int] == print,
    ensures
        first_free(right, taken, prints, print, from) == Some(place),
    decreases place - from,
{
    if from < place {
        lemma_free_at(right, taken, prints, print, from + 1, place);
    }
}

proof fn lemma_likened_to_itself(matching: MatchingView, list: Seq<usize>, prints: Seq<Fingerprint>, count: int)
    requires
        mirrored(matching),
        0 <= count <= list.len(),
    ensures
        ({
            let alike = likened(matching, list.take(count), list, prints, prints);
            &&& mirrored(alike.matching)
            &&& alike.rest.len() == 0
            &&& alike.taken.len() == list.len()
            &&& forall|k: int| 0 <= k < list.len() ==> #[trigger] alike.taken[k] == (k < count)
        }),
    decreases count,
{
    if count > 0 {
        lemma_likened_to_itself(matching, list, prints, count - 1);
        assert(list.take(count).drop_last() =~= list.take(count - 1));
        assert(list.take(count).last() == list[count - 1]);
        let before = likened(matching, list.take(count - 1), list, prints, prints);
        lemma_free_at(list, before.taken, prints, prints[list[count - 1] as int], 0, count - 1);
    } else {
        assert(list.take(0) =~= Seq::empty());
    }
}

proof fn lemma_none_free(right: Seq<usize>, taken: Seq<bool>)
    requires
        forall|k: int| 0 <= k < right.len() ==> #[trigger] taken[k],
    ensures
        free(right, taken).len() == 0,
    decreases right.len(),
{
    if right.len() > 0 {
        lemma_none_free(right.drop_last(), taken);
        assert(taken[right.len() - 1]);
    }
}

proof fn lemma_group_mirrored(matching: MatchingView, list: Seq<usize>, prints: Seq<Fingerprint>)
    requires
        mirrored(matching),
    ensures
        mirrored(group_matched(matching, list, list, prints, prints)),
{
    lemma_likened_to_itself(matching, list, prints, list.len() as int);
    assert(list.take(list.len() as int) =~= list);
    let alike = likened(matching, list, list, prints, prints);
    lemma_none_free(list, alike.taken);
}

proof fn lemma_merged_mirrored(sides: Sides, matching: MatchingView, list: Seq<usize>, at: int)
    requires
        sides.left == sides.right,
        sides.left_prints == sides.right_prints,
        mirrored(matching),
        0 <= at <= list.len(),
    ensures
        mirrored(merged(sides, matching, list, list, at, at)),
    decreases list.len() - at,
{
    if at < list.len() {
        let key = key_at(sides.left, list[at] as int);
        lemma_key_order(key, key, key);
        let end = run_end(sides.left, list, key, at + 1);
        lemma_run_end(sides.left, list, key, at + 1);
        let part = list.subrange(at, end);
        lemma_group_mirrored(matching, part, sides.left_prints);
        lemma_merged_mirrored(
            sides,
            group_matched(matching, part, part, sides.left_prints, sides.right_prints),
            list,
            end,
        );
    }
}

proof fn lemma_walked_mirrored(sides: Sides, steps: nat)
    requires
        sides.left == sides.right,
        sides.left_prints == sides.right_prints,
    ensures
        mirrored(walked(sides, steps)),
    decreases steps,
{
    if steps > 0 {
        lemma_walked_mirrored(sides, (steps - 1) as nat);
        let before = walked(sides, (steps - 1) as nat);
        if steps - 1 < before.pairs.len() {
            let (l, r) = before.pairs[steps - 1];
            assert(l == r);
            lemma_merged_mirrored(sides, before, ordered_children(sides.left, sides.left[l as int].children@), 0);
        }
    }
}

/// Where both places are the same, every instance is its own counterpart.
pub proof fn lemma_matched_mirrored(sides: Sides)
    requires
        sides.left == sides.right,
        sides.left_prints == sides.right_prints,
    ensures
        mirrored(matched(sides)),
{
    lemma_walked_mirrored(sides, sides.left.len());
}

// ---------------------------------------------------------------------------
// Execution

/// Everything that a matching lists is an instance.
pub open spec fn within(matching: MatchingView) -> bool {
    &&& forall|k: int|
        0 <= k < matching.left_unmatched.len() ==> (#[trigger] matching.left_unmatched[k]) < matching.left_pair.len()
    &&& forall|k: int|
        0 <= k < matching.right_unmatched.len() ==> (#[trigger] matching.right_unmatched[k])
            < matching.right_pair.len()
    &&& forall|k: int|
        0 <= k < matching.order_changes.len() ==> (#[trigger] matching.order_changes[k]).0 < matching.left_pair.len()
            && matching.order_changes[k].1 < matching.right_pair.len()
}

fn add_pair(matching: &mut Matching, left: usize, right: usize)
    requires
        left < old(matching).left_pair@.len(),
        right < old(matching).right_pair@.len(),
    ensures
        final(matching)@ == old(matching)@.with_pair(left, right),
{
    let pair: usize = matching.pairs.len();
    matching.pairs.push((left, right));
    matching.left_pair.set(left, Some(pair));
    matching.right_pair.set(right, Some(pair));
    proof {
        assert(matching@ =~= old(matching)@.with_pair(left, right));
    }
}

fn find_free(
    right: &Vec<usize>,
    taken: &Vec<bool>,
    prints: &Vec<Fingerprint>,
    print: Fingerprint,
) -> (found: Option<usize>)
    requires
        taken@.len() == right@.len(),
        forall|k: int| 0 <= k < right@.len() ==> (#[trigger] right@[k]) < prints@.len(),
    ensures
        match first_free(right@, taken@, prints@, print, 0) {
            Some(k) => found matches Some(place) && place == k && place < right@.len(),
            None => found is None,
        },
{
    let mut at: usize = 0;
    while at < right.len()
        invariant
            at <= right@.len(),
            taken@.len() == right@.len(),
            forall|k: int| 0 <= k < right@.len() ==> (#[trigger] right@[k]) < prints@.len(),
            first_free(right@, taken@, prints@, print, 0) == first_free(right@, taken@, prints@, print, at as int),
        decreases right@.len() - at,
    {
        if !taken[at] && prints[right[at]] == print {
            return Some(at);
        }
        at = at + 1;
    }
    None
}

fn match_group(
    matching: &mut Matching,
    left: &Vec<usize>,
    right: &Vec<usize>,
    left_prints: &Vec<Fingerprint>,
    right_prints: &Vec<Fingerprint>,
)
    requires
        old(matching).left_pair@.len() == left_prints@.len(),
        old(matching).right_pair@.len() == right_prints@.len(),
        forall|k: int| 0 <= k < left@.len() ==> (#[trigger] left@[k]) < left_prints@.len(),
        forall|k: int| 0 <= k < right@.len() ==> (#[trigger] right@[k]) < right_prints@.len(),
    ensures
        final(matching)@ == group_matched(old(matching)@, left@, right@, left_prints@, right_prints@),
        final(matching).left_pair@.len() == old(matching).left_pair@.len(),
        final(matching).right_pair@.len() == old(matching).right_pair@.len(),
        within(old(matching)@) ==> within(final(matching)@),
{
    let ghost start = matching@;
    let mut taken: Vec<bool> = Vec::new();
    let mut fill: usize = 0;
    while fill < right.len()
        invariant
            fill <= right@.len(),
            taken@.len() == fill,
            forall|k: int| 0 <= k < fill ==> !(#[trigger] taken@[k]),
        decreases right@.len() - fill,
    {
        taken.push(false);
        fill = fill + 1;
    }
    let mut rest: Vec<usize> = Vec::new();
    let mut at: usize = 0;
    proof {
        assert(left@.take(0) =~= Seq::empty());
        assert(taken@ =~= Seq::new(right@.len(), |k: int| false));
    }
    while at < left.len()
        invariant
            at <= left@.len(),
            matching.left_pair@.len() == left_prints@.len(),
            matching.right_pair@.len() == right_prints@.len(),
            forall|k: int| 0 <= k < left@.len() ==> (#[trigger] left@[k]) < left_prints@.len(),
            forall|k: int| 0 <= k < right@.len() ==> (#[trigger] right@[k]) < right_prints@.len(),
            taken@.len() == right@.len(),
            matching.left_unmatched@ == start.left_unmatched,
            matching.right_unmatched@ == start.right_unmatched,
            matching.order_changes@ == start.order_changes,
            likened(start, left@.take(at as int), right@, left_prints@, right_prints@) == (Likeness {
                matching: matching@,
                taken: taken@,
                rest: rest@,
            }),
            forall|k: int| 0 <= k < rest@.len() ==> (#[trigger] rest@[k]) < left_prints@.len(),
        decreases left@.len() - at,
    {
        proof {
            let next = left@.take(at + 1);
            assert(next.drop_last() =~= left@.take(at as int));
            assert(next.last() == left@[at as int]);
        }
        let one: usize = left[at];
        match find_free(right, &taken, right_prints, left_prints[one]) {
            Some(k) => {
                add_pair(matching, one, right[k]);
                taken.set(k, true);
            },
            None => {
                rest.push(one);
            },
        }
        at = at + 1;
    }
    proof {
        assert(left@.take(left@.len() as int) =~= left@);
    }
    let mut others: Vec<usize> = Vec::new();
    let mut k: usize = 0;
    proof {
        assert(right@.take(0) =~= Seq::empty());
        assert(others@ =~= free(right@.take(0), taken@));
    }
    while k < right.len()
        invariant
            k <= right@.len(),
            taken@.len() == right@.len(),
            forall|j: int| 0 <= j < right@.len() ==> (#[trigger] right@[j]) < right_prints@.len(),
            others@ == free(right@.take(k as int), taken@),
            forall|j: int| 0 <= j < others@.len() ==> (#[trigger] others@[j]) < right_prints@.len(),
        decreases right@.len() - k,
    {
        proof {
            let next = right@.take(k + 1);
            assert(next.drop_last() =~= right@.take(k as int));
            assert(next.last() == right@[k as int]);
        }
        if !taken[k] {
            others.push(right[k]);
        }
        k = k + 1;
    }
    proof {
        assert(right@.take(right@.len() as int) =~= right@);
    }
    let ghost alike = matching@;
    let count: usize = if rest.len() < others.len() {
        rest.len()
    } else {
        others.len()
    };
    let mut done: usize = 0;
    while done < count
        invariant
            done <= count,
            count == shorter(rest@, others@),
            matching.left_pair@.len() == left_prints@.len(),
            matching.right_pair@.len() == right_prints@.len(),
            forall|j: int| 0 <= j < rest@.len() ==> (#[trigger] rest@[j]) < left_prints@.len(),
            forall|j: int| 0 <= j < others@.len() ==> (#[trigger] others@[j]) < right_prints@.len(),
            matching.left_unmatched@ == start.left_unmatched,
            matching.right_unmatched@ == start.right_unmatched,
            matching.order_changes@ == start.order_changes,
            matching@ == zipped(alike, rest@, others@, done as nat),
        decreases count - done,
    {
        add_pair(matching, rest[done], others[done]);
        done = done + 1;
    }
    let ghost zipped_up = matching@;
    let mut more: usize = count;
    proof {
        assert(rest@.subrange(count as int, count as int) =~= Seq::empty());
        assert(matching.left_unmatched@ =~= zipped_up.left_unmatched + rest@.subrange(count as int, more as int));
    }
    while more < rest.len()
        invariant
            count <= more <= rest@.len(),
            matching@ == (MatchingView {
                left_unmatched: zipped_up.left_unmatched + rest@.subrange(count as int, more as int),
                ..zipped_up
            }),
        decreases rest@.len() - more,
    {
        matching.left_unmatched.push(rest[more]);
        proof {
            assert(rest@.subrange(count as int, more + 1) =~= rest@.subrange(count as int, more as int).push(
                rest@[more as int],
            ));
            assert(matching@ =~= (MatchingView {
                left_unmatched: zipped_up.left_unmatched + rest@.subrange(count as int, more + 1),
                ..zipped_up
            }));
        }
        more = more + 1;
    }
    let ghost lefts_done = matching@;
    let mut last: usize = count;
    proof {
        assert(rest@.subrange(count as int, more as int) =~= rest@.skip(count as int));
        assert(others@.subrange(count as int, count as int) =~= Seq::empty());
        assert(matching.right_unmatched@ =~= lefts_done.right_unmatched + others@.subrange(count as int, last as int));
    }
    while last < others.len()
        invariant
            count <= last <= others@.len(),
            matching@ == (MatchingView {
                right_unmatched: lefts_done.right_unmatched + others@.subrange(count as int, last as int),
                ..lefts_done
            }),
        decreases others@.len() - last,
    {
        matching.right_unmatched.push(others[last]);
        proof {
            assert(others@.subrange(count as int, last + 1) =~= others@.subrange(count as int, last as int).push(
                others@[last as int],
            ));
            assert(matching@ =~= (MatchingView {
                right_unmatched: lefts_done.right_unmatched + others@.subrange(count as int, last + 1),
                ..lefts_done
            }));
        }
        last = last + 1;
    }
    proof {
        assert(others@.subrange(count as int, last as int) =~= others@.skip(count as int));
        assert(matching@ =~= group_matched(start, left@, right@, left_prints@, right_prints@));
        if within(start) {
            assert forall|j: int| 0 <= j < matching.left_unmatched@.len() implies (#[trigger] matching.left_unmatched@[j])
                < matching.left_pair@.len() by {
                if j < start.left_unmatched.len() {
                    assert(matching.left_unmatched@[j] == start.left_unmatched[j]);
                } else {
                    assert(matching.left_unmatched@[j] == rest@[j - start.left_unmatched.len() + count]);
                }
            }
            assert forall|j: int| 0 <= j < matching.right_unmatched@.len() implies (
            #[trigger] matching.right_unmatched@[j]) < matching.right_pair@.len() by {
                if j < start.right_unmatched.len() {
                    assert(matching.right_unmatched@[j] == start.right_unmatched[j]);
                } else {
                    assert(matching.right_unmatched@[j] == others@[j - start.right_unmatched.len() + count]);
                }
            }
            assert forall|j: int| 0 <= j < matching.order_changes@.len() implies (#[trigger] matching.order_changes@[j]).0
                < matching.left_pair@.len() && matching.order_changes@[j].1 < matching.right_pair@.len() by {
                assert(matching.order_changes@[j] == start.order_changes[j]);
            }
        }
    }
}

fn has_key(all: &Vec<PlaceNode>, at: usize, class: &str, name: &str) -> (has: bool)
    requires
        at < all@.len(),
    ensures
        has == (key_at(all@, at as int) == (class@, name@)),
{
    all[at].class.as_str().eq(class) && all[at].name.as_str().eq(name)
}

/// The instances of the class and name that stand at `start` in an ordered list.
fn group_at(all: &Vec<PlaceNode>, list: &Vec<usize>, start: usize) -> (group: Vec<usize>)
    requires
        start < list@.len(),
        forall|k: int| 0 <= k < list@.len() ==> (#[trigger] list@[k]) < all@.len(),
    ensures
        group@ == list@.subrange(
            start as int,
            run_end(all@, list@, key_at(all@, list@[start as int] as int), start + 1),
        ),
        forall|k: int| 0 <= k < group@.len() ==> (#[trigger] group@[k]) < all@.len(),
{
    let first: &PlaceNode = &all[list[start]];
    let ghost key = key_at(all@, list@[start as int] as int);
    let mut group: Vec<usize> = Vec::new();
    group.push(list[start]);
    let len: usize = list.len();
    let mut end: usize = start + 1;
    proof {
        assert(group@ =~= list@.subrange(start as int, end as int));
    }
    while end < len && has_key(all, list[end], first.class.as_str(), first.name.as_str())
        invariant
            start < end <= list@.len(),
            len == list@.len(),
            forall|k: int| 0 <= k < list@.len() ==> (#[trigger] list@[k]) < all@.len(),
            key == (first.class@, first.name@),
            group@ == list@.subrange(start as int, end as int),
            run_end(all@, list@, key, start + 1) == run_end(all@, list@, key, end as int),
        decreases list@.len() - end,
    {
        group.push(list[end]);
        proof {
            assert(list@.subrange(start as int, end + 1) =~= list@.subrange(start as int, end as int).push(
                list@[end as int],
            ));
        }
        end = end + 1;
    }
    proof {
        assert forall|k: int| 0 <= k < group@.len() implies (#[trigger] group@[k]) < all@.len() by {
            assert(group@[k] == list@[start + k]);
        }
    }
    group
}

proof fn lemma_within_push(before: MatchingView, after: MatchingView)
    requires
        before.left_pair == after.left_pair,
        before.right_pair == after.right_pair,
        before.order_changes == after.order_changes,
        after.left_unmatched == before.left_unmatched || (after.left_unmatched.drop_last() == before.left_unmatched
            && after.left_unmatched.len() > 0 && after.left_unmatched.last() < after.left_pair.len()),
        after.right_unmatched == before.right_unmatched || (after.right_unmatched.drop_last()
            == before.right_unmatched && after.right_unmatched.len() > 0 && after.right_unmatched.last()
            < after.right_pair.len()),
    ensures
        within(before) ==> within(after),
{
    if within(before) {
        assert forall|k: int| 0 <= k < after.left_unmatched.len() implies (#[trigger] after.left_unmatched[k])
            < after.left_pair.len() by {
            if k < before.left_unmatched.len() {
                assert(before.left_unmatched[k] == after.left_unmatched[k]);
            }
        }
        assert forall|k: int| 0 <= k < after.right_unmatched.len() implies (#[trigger] after.right_unmatched[k])
            < after.right_pair.len() by {
            if k < before.right_unmatched.len() {
                assert(before.right_unmatched[k] == after.right_unmatched[k]);
            }
        }
    }
}

fn merge_children(
    left: &PlaceStructure,
    right: &PlaceStructure,
    left_prints: &Vec<Fingerprint>,
    right_prints: &Vec<Fingerprint>,
    ordered_left: &Vec<usize>,
    ordered_right: &Vec<usize>,
    matching: &mut Matching,
)
    requires
        left_prints@.len() == left.nodes@.len(),
        right_prints@.len() == right.nodes@.len(),
        old(matching).left_pair@.len() == left_prints@.len(),
        old(matching).right_pair@.len() == right_prints@.len(),
        forall|k: int| 0 <= k < ordered_left@.len() ==> (#[trigger] ordered_left@[k]) < left.nodes@.len(),
        forall|k: int| 0 <= k < ordered_right@.len() ==> (#[trigger] ordered_right@[k]) < right.nodes@.len(),
    ensures
        final(matching)@ == merged(
            sides_of(left, right, left_prints, right_prints),
            old(matching)@,
            ordered_left@,
            ordered_right@,
            0,
            0,
        ),
        final(matching).left_pair@.len() == old(matching).left_pair@.len(),
        final(matching).right_pair@.len() == old(matching).right_pair@.len(),
        within(old(matching)@) ==> within(final(matching)@),
{
    let ghost sides = sides_of(left, right, left_prints, right_prints);
    let ghost goal = merged(sides, matching@, ordered_left@, ordered_right@, 0, 0);
    let mut l: usize = 0;
    let mut r: usize = 0;
    while l < ordered_left.len() || r < ordered_right.len()
        invariant
            l <= ordered_left@.len(),
            r <= ordered_right@.len(),
            sides == sides_of(left, right, left_prints, right_prints),
            left_prints@.len() == left.nodes@.len(),
            right_prints@.len() == right.nodes@.len(),
            matching.left_pair@.len() == left_prints@.len(),
            matching.right_pair@.len() == right_prints@.len(),
            forall|k: int| 0 <= k < ordered_left@.len() ==> (#[trigger] ordered_left@[k]) < left.nodes@.len(),
            forall|k: int| 0 <= k < ordered_right@.len() ==> (#[trigger] ordered_right@[k]) < right.nodes@.len(),
            within(old(matching)@) ==> within(matching@),
            goal == merged(sides, matching@, ordered_left@, ordered_right@, l as int, r as int),
        decreases ordered_left@.len() + ordered_right@.len() - l - r,
    {
        let ghost before = matching@;
        let take_left: bool = r >= ordered_right.len() || (l < ordered_left.len() && pair_before(
            left,
            right,
            ordered_left[l],
            ordered_right[r],
        ));
        if take_left {
            matching.left_unmatched.push(ordered_left[l]);
            proof {
                assert(matching@ =~= before.without(seq![ordered_left@[l as int]], Seq::empty()));
                assert(matching@.left_unmatched.drop_last() =~= before.left_unmatched);
                lemma_within_push(before, matching@);
            }
            l = l + 1;
        } else if l >= ordered_left.len() || pair_before(right, left, ordered_right[r], ordered_left[l]) {
            matching.right_unmatched.push(ordered_right[r]);
            proof {
                assert(matching@ =~= before.without(Seq::empty(), seq![ordered_right@[r as int]]));
                assert(matching@.right_unmatched.drop_last() =~= before.right_unmatched);
                lemma_within_push(before, matching@);
            }
            r = r + 1;
        } else {
            let left_group: Vec<usize> = group_at(&left.nodes, ordered_left, l);
            let right_group: Vec<usize> = group_at(&right.nodes, ordered_right, r);
            proof {
                lemma_run_end(left.nodes@, ordered_left@, key_at(left.nodes@, ordered_left@[l as int] as int), l + 1);
                lemma_run_end(
                    right.nodes@,
                    ordered_right@,
                    key_at(right.nodes@, ordered_right@[r as int] as int),
                    r + 1,
                );
            }
            match_group(matching, &left_group, &right_group, left_prints, right_prints);
            l = l + left_group.len();
            r = r + right_group.len();
        }
    }
}

/// What the places and the fingerprints of their subtrees stand for.
pub open spec fn sides_of(
    left: &PlaceStructure,
    right: &PlaceStructure,
    left_prints: &Vec<Fingerprint>,
    right_prints: &Vec<Fingerprint>,
) -> Sides {
    Sides {
        left: left.nodes@,
        right: right.nodes@,
        left_prints: left_prints@,
        right_prints: right_prints@,
    }
}

fn pair_before(left: &PlaceStructure, right: &PlaceStructure, l: usize, r: usize) -> (before: bool)
    requires
        l < left.nodes@.len(),
        r < right.nodes@.len(),
    ensures
        before == key_before(key_at(left.nodes@, l as int), key_at(right.nodes@, r as int)),
{
    let a: &PlaceNode = &left.nodes[l];
    let b: &PlaceNode = &right.nodes[r];
    if is_before(a.class.as_str(), b.class.as_str()) {
        return true;
    }
    a.class.as_str().eq(b.class.as_str()) && is_before(a.name.as_str(), b.name.as_str())
}

fn find_pair_sequence(pairs: &Vec<Option<usize>>, list: &Vec<usize>) -> (sequence: Vec<usize>)
    requires
        forall|k: int| 0 <= k < list@.len() ==> (#[trigger] list@[k]) < pairs@.len(),
    ensures
        sequence@ == pair_sequence(pairs@, list@),
{
    let mut sequence: Vec<usize> = Vec::new();
    let mut at: usize = 0;
    proof {
        assert(list@.take(0) =~= Seq::empty());
        assert(sequence@ =~= pair_sequence(pairs@, list@.take(0)));
    }
    while at < list.len()
        invariant
            at <= list@.len(),
            forall|k: int| 0 <= k < list@.len() ==> (#[trigger] list@[k]) < pairs@.len(),
            sequence@ == pair_sequence(pairs@, list@.take(at as int)),
        decreases list@.len() - at,
    {
        proof {
            let next = list@.take(at + 1);
            assert(next.drop_last() =~= list@.take(at as int));
            assert(next.last() == list@[at as int]);
        }
        match pairs[list[at]] {
            Some(pair) => {
                sequence.push(pair);
            },
            None => {},
        }
        at = at + 1;
    }
    proof {
        assert(list@.take(list@.len() as int) =~= list@);
    }
    sequence
}

fn same_sequence(left: &Vec<usize>, right: &Vec<usize>) -> (same: bool)
    ensures
        same == (left@ == right@),
{
    if left.len() != right.len() {
        return false;
    }
    let mut at: usize = 0;
    while at < left.len()
        invariant
            at <= left@.len(),
            left@.len() == right@.len(),
            forall|k: int| 0 <= k < at ==> #[trigger] left@[k] == right@[k],
        decreases left@.len() - at,
    {
        if left[at] != right[at] {
            return false;
        }
        at = at + 1;
    }
    proof {
        assert(left@ =~= right@);
    }
    true
}

fn first_numbers(count: usize) -> (numbers: Vec<Option<usize>>)
    requires
        count > 0,
    ensures
        numbers@ == Seq::new(
            count as nat,
            |k: int|
                if k == 0 {
                    Some(0usize)
                } else {
                    None
                },
        ),
{
    let mut numbers: Vec<Option<usize>> = Vec::new();
    numbers.push(Some(0));
    while numbers.len() < count
        invariant
            1 <= numbers@.len() <= count,
            numbers@[0] == Some(0usize),
            forall|k: int| 0 < k < numbers@.len() ==> (#[trigger] numbers@[k]) is None,
        decreases count - numbers@.len(),
    {
        numbers.push(None);
    }
    proof {
        assert(numbers@ =~= Seq::new(
            count as nat,
            |k: int|
                if k == 0 {
                    Some(0usize)
                } else {
                    None
                },
        ));
    }
    numbers
}

/// Finds which instance of one place is which instance of another, by the
/// fingerprints of their subtrees.
pub fn match_hierarchy(
    left: &PlaceStructure,
    right: &PlaceStructure,
    left_prints: &Vec<Fingerprint>,
    right_prints: &Vec<Fingerprint>,
) -> (matching: Matching)
    requires
        left.wf(),
        right.wf(),
        left_prints@.len() == left.nodes@.len(),
        right_prints@.len() == right.nodes@.len(),
    ensures
        matching@ == matched(sides_of(left, right, left_prints, right_prints)),
        coherent(matching@),
        within(matching@),
        matching.left_pair@.len() == left.nodes@.len(),
        matching.right_pair@.len() == right.nodes@.len(),
{
    let ghost sides = sides_of(left, right, left_prints, right_prints);
    let mut pairs: Vec<(usize, usize)> = Vec::new();
    pairs.push((0, 0));
    let mut matching: Matching = Matching {
        pairs,
        left_pair: first_numbers(left.nodes.len()),
        right_pair: first_numbers(right.nodes.len()),
        left_unmatched: Vec::new(),
        right_unmatched: Vec::new(),
        order_changes: Vec::new(),
    };
    proof {
        assert(matching@ =~= walked(sides, 0));
        lemma_walked(sides, 0);
    }
    let mut cursor: usize = 0;
    while cursor < matching.pairs.len()
        invariant
            left.wf(),
            right.wf(),
            sides == sides_of(left, right, left_prints, right_prints),
            sides_shaped(sides),
            matching@ == walked(sides, cursor as nat),
            walk_sound(sides, matching@, cursor as int),
            within(matching@),
        decreases left.nodes@.len() - cursor,
    {
        let ghost before = matching@;
        proof {
            assert(pair_noted(before, cursor as int));
            lemma_pair_bound(before, None);
            lemma_stepped(sides, before, cursor as int);
            let (l, r) = before.pairs[cursor as int];
            lemma_children_unpaired(sides.left, before.left_pair, cursor as int, l as int);
            lemma_children_unpaired(sides.right, before.right_pair, cursor as int, r as int);
        }
        let (l, r): (usize, usize) = matching.pairs[cursor];
        let left_children: &Vec<usize> = &left.nodes[l].children;
        let right_children: &Vec<usize> = &right.nodes[r].children;
        let ordered_left: Vec<usize> = order_children(&left.nodes, left_children);
        let ordered_right: Vec<usize> = order_children(&right.nodes, right_children);
        merge_children(left, right, left_prints, right_prints, &ordered_left, &ordered_right, &mut matching);
        let left_sequence: Vec<usize> = find_pair_sequence(&matching.left_pair, left_children);
        let right_sequence: Vec<usize> = find_pair_sequence(&matching.right_pair, right_children);
        let ghost merged_up = matching@;
        if !same_sequence(&left_sequence, &right_sequence) {
            matching.order_changes.push((l, r));
        }
        proof {
            assert(matching@ =~= stepped(sides, before, cursor as int));
            assert(within(matching@)) by {
                assert(within(merged_up));
                assert forall|k: int| 0 <= k < matching.order_changes@.len() implies (
                #[trigger] matching.order_changes@[k]).0 < matching.left_pair@.len() && matching.order_changes@[k].1
                    < matching.right_pair@.len() by {
                    if k < merged_up.order_changes.len() {
                        assert(matching.order_changes@[k] == merged_up.order_changes[k]);
                    }
                }
            }
        }
        cursor = cursor + 1;
    }
    proof {
        lemma_pair_bound(matching@, None);
        lemma_walk_ends(sides, cursor as nat, sides.left.len());
    }
    matching
}

} // verus!
