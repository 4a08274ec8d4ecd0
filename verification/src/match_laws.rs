//! Which instances of two places are taken for each other.

use crate::place::{key_at, NodeKey, PlaceNode};
use crate::place_fingerprints::Fingerprint;
use crate::place_matching::{
    first_free, free, group_matched, key_before, lemma_key_order, lemma_run_end, likened, matched, merged,
    ordered_children, run_end, shorter, walked, zipped, MatchingView, Sides,
};
use vstd::prelude::*;

verus! {

/// Two instances have the same class and the same name.
pub open spec fn are_namesakes(sides: Sides, left: usize, right: usize) -> bool {
    &&& sides.left[left as int].class@ == sides.right[right as int].class@
    &&& sides.left[left as int].name@ == sides.right[right as int].name@
}

/// All pairs but that of the roots have the same class and name.
spec fn pairs_namesakes(sides: Sides, matching: MatchingView) -> bool {
    &&& matching.pairs.len() > 0
    &&& forall|p: int|
        0 < p < matching.pairs.len() ==> are_namesakes(
            sides,
            (#[trigger] matching.pairs[p]).0,
            matching.pairs[p].1,
        )
}

spec fn all_keyed(all: Seq<PlaceNode>, list: Seq<usize>, key: NodeKey) -> bool {
    forall|k: int| 0 <= k < list.len() ==> key_at(all, #[trigger] list[k] as int) == key
}

proof fn lemma_one_pair(sides: Sides, matching: MatchingView, left: usize, right: usize)
    requires
        pairs_namesakes(sides, matching),
        key_at(sides.left, left as int) == key_at(sides.right, right as int),
    ensures
        pairs_namesakes(sides, matching.with_pair(left, right)),
{
    let after = matching.with_pair(left, right);
    assert forall|p: int| 0 < p < after.pairs.len() implies are_namesakes(
        sides,
        (#[trigger] after.pairs[p]).0,
        after.pairs[p].1,
    ) by {
        if p < matching.pairs.len() {
            assert(after.pairs[p] == matching.pairs[p]);
        }
    }
}

proof fn lemma_first_free(
    right: Seq<usize>,
    taken: Seq<bool>,
    prints: Seq<Fingerprint>,
    print: Fingerprint,
    from: int,
)
    ensures
        first_free(right, taken, prints, print, from) matches Some(k) ==> 0 <= k < right.len() && !taken[k]
            && prints[right[k] as int] == print,
    decreases right.len() - from,
{
    if 0 <= from < right.len() && !(!taken[from] && prints[right[from] as int] == print) {
        lemma_first_free(right, taken, prints, print, from + 1);
    }
}

proof fn lemma_likened(sides: Sides, matching: MatchingView, left: Seq<usize>, right: Seq<usize>, key: NodeKey)
    requires
        pairs_namesakes(sides, matching),
        all_keyed(sides.left, left, key),
        all_keyed(sides.right, right, key),
    ensures
        pairs_namesakes(sides, likened(matching, left, right, sides.left_prints, sides.right_prints).matching),
        all_keyed(
            sides.left,
            likened(matching, left, right, sides.left_prints, sides.right_prints).rest,
            key,
        ),
        likened(matching, left, right, sides.left_prints, sides.right_prints).taken.len() == right.len(),
    decreases left.len(),
{
    if left.len() > 0 {
        let fewer = left.drop_last();
        assert(forall|k: int| 0 <= k < fewer.len() ==> #[trigger] fewer[k] == left[k]);
        lemma_likened(sides, matching, fewer, right, key);
        let before = likened(matching, fewer, right, sides.left_prints, sides.right_prints);
        assert(left[left.len() - 1] == left.last());
        lemma_first_free(right, before.taken, sides.right_prints, sides.left_prints[left.last() as int], 0);
        match first_free(right, before.taken, sides.right_prints, sides.left_prints[left.last() as int], 0) {
            Some(k) => {
                assert(key_at(sides.right, right[k] as int) == key);
                lemma_one_pair(sides, before.matching, left.last(), right[k]);
            },
            None => {},
        }
    }
}

proof fn lemma_free(all: Seq<PlaceNode>, right: Seq<usize>, taken: Seq<bool>, key: NodeKey)
    requires
        all_keyed(all, right, key),
    ensures
        all_keyed(all, free(right, taken), key),
    decreases right.len(),
{
    if right.len() > 0 {
        let fewer = right.drop_last();
        assert(forall|k: int| 0 <= k < fewer.len() ==> #[trigger] fewer[k] == right[k]);
        lemma_free(all, fewer, taken, key);
        assert(right[right.len() - 1] == right.last());
    }
}

proof fn lemma_zipped(
    sides: Sides,
    matching: MatchingView,
    left: Seq<usize>,
    right: Seq<usize>,
    count: nat,
    key: NodeKey,
)
    requires
        pairs_namesakes(sides, matching),
        all_keyed(sides.left, left, key),
        all_keyed(sides.right, right, key),
        count <= left.len(),
        count <= right.len(),
    ensures
        pairs_namesakes(sides, zipped(matching, left, right, count)),
    decreases count,
{
    if count > 0 {
        lemma_zipped(sides, matching, left, right, (count - 1) as nat, key);
        assert(key_at(sides.left, left[count - 1] as int) == key);
        assert(key_at(sides.right, right[count - 1] as int) == key);
        lemma_one_pair(
            sides,
            zipped(matching, left, right, (count - 1) as nat),
            left[count - 1],
            right[count - 1],
        );
    }
}

proof fn lemma_run(all: Seq<PlaceNode>, list: Seq<usize>, key: NodeKey, from: int)
    requires
        0 <= from <= list.len(),
    ensures
        forall|k: int| from <= k < run_end(all, list, key, from) ==> key_at(all, #[trigger] list[k] as int) == key,
    decreases list.len() - from,
{
    if from < list.len() && key_at(all, list[from] as int) == key {
        lemma_run(all, list, key, from + 1);
    }
}

proof fn lemma_merged(sides: Sides, matching: MatchingView, left: Seq<usize>, right: Seq<usize>, l: int, r: int)
    requires
        pairs_namesakes(sides, matching),
        0 <= l <= left.len(),
        0 <= r <= right.len(),
    ensures
        pairs_namesakes(sides, merged(sides, matching, left, right, l, r)),
    decreases left.len() + right.len() - l - r,
{
    if l >= left.len() && r >= right.len() {
    } else if r >= right.len() {
        lemma_merged(sides, matching.without(seq![left[l]], Seq::empty()), left, right, l + 1, r);
    } else if l >= left.len() {
        lemma_merged(sides, matching.without(Seq::empty(), seq![right[r]]), left, right, l, r + 1);
    } else {
        let left_key = key_at(sides.left, left[l] as int);
        let right_key = key_at(sides.right, right[r] as int);
        if key_before(left_key, right_key) {
            lemma_merged(sides, matching.without(seq![left[l]], Seq::empty()), left, right, l + 1, r);
        } else if key_before(right_key, left_key) {
            lemma_merged(sides, matching.without(Seq::empty(), seq![right[r]]), left, right, l, r + 1);
        } else {
            lemma_key_order(left_key, right_key, right_key);
            assert(left_key == right_key);
            let left_end = run_end(sides.left, left, left_key, l + 1);
            let right_end = run_end(sides.right, right, right_key, r + 1);
            lemma_run_end(sides.left, left, left_key, l + 1);
            lemma_run_end(sides.right, right, right_key, r + 1);
            lemma_run(sides.left, left, left_key, l + 1);
            lemma_run(sides.right, right, right_key, r + 1);
            let a = left.subrange(l, left_end);
            let b = right.subrange(r, right_end);
            assert forall|k: int| 0 <= k < a.len() implies key_at(sides.left, #[trigger] a[k] as int) == left_key by {
                assert(a[k] == left[l + k]);
            }
            assert forall|k: int| 0 <= k < b.len() implies key_at(sides.right, #[trigger] b[k] as int) == left_key by {
                assert(b[k] == right[r + k]);
            }
            lemma_likened(sides, matching, a, b, left_key);
            let alike = likened(matching, a, b, sides.left_prints, sides.right_prints);
            lemma_free(sides.right, b, alike.taken, left_key);
            let others = free(b, alike.taken);
            lemma_zipped(sides, alike.matching, alike.rest, others, shorter(alike.rest, others), left_key);
            let group = group_matched(matching, a, b, sides.left_prints, sides.right_prints);
            assert(pairs_namesakes(sides, group));
            lemma_merged(sides, group, left, right, left_end, right_end);
        }
    }
}

proof fn lemma_walked(sides: Sides, steps: nat)
    ensures
        pairs_namesakes(sides, walked(sides, steps)),
    decreases steps,
{
    if steps > 0 {
        lemma_walked(sides, (steps - 1) as nat);
        let before = walked(sides, (steps - 1) as nat);
        if steps - 1 < before.pairs.len() {
            let (l, r) = before.pairs[steps - 1];
            lemma_merged(
                sides,
                before,
                ordered_children(sides.left, sides.left[l as int].children@),
                ordered_children(sides.right, sides.right[r as int].children@),
                0,
                0,
            );
        }
    }
}

/// Two instances are taken for each other only where both have the same class and the same
/// name; the roots are taken for each other in any case.
pub proof fn law_counterparts_are_namesakes(sides: Sides, p: int)
    requires
        0 <= p < matched(sides).pairs.len(),
    ensures
        matched(sides).pairs[p] == (0usize, 0usize) || are_namesakes(
            sides,
            matched(sides).pairs[p].0,
            matched(sides).pairs[p].1,
        ),
{
    lemma_walked(sides, sides.left.len());
    lemma_first_pair(sides, sides.left.len());
}

proof fn lemma_longer(sides: Sides, matching: MatchingView, left: Seq<usize>, right: Seq<usize>, l: int, r: int)
    requires
        matching.pairs.len() > 0,
        0 <= l <= left.len(),
        0 <= r <= right.len(),
    ensures
        merged(sides, matching, left, right, l, r).pairs.len() > 0,
        merged(sides, matching, left, right, l, r).pairs[0] == matching.pairs[0],
    decreases left.len() + right.len() - l - r,
{
    if l >= left.len() && r >= right.len() {
    } else if r >= right.len() {
        lemma_longer(sides, matching.without(seq![left[l]], Seq::empty()), left, right, l + 1, r);
    } else if l >= left.len() {
        lemma_longer(sides, matching.without(Seq::empty(), seq![right[r]]), left, right, l, r + 1);
    } else {
        let left_key = key_at(sides.left, left[l] as int);
        let right_key = key_at(sides.right, right[r] as int);
        if key_before(left_key, right_key) {
            lemma_longer(sides, matching.without(seq![left[l]], Seq::empty()), left, right, l + 1, r);
        } else if key_before(right_key, left_key) {
            lemma_longer(sides, matching.without(Seq::empty(), seq![right[r]]), left, right, l, r + 1);
        } else {
            let left_end = run_end(sides.left, left, left_key, l + 1);
            let right_end = run_end(sides.right, right, right_key, r + 1);
            lemma_run_end(sides.left, left, left_key, l + 1);
            lemma_run_end(sides.right, right, right_key, r + 1);
            let a = left.subrange(l, left_end);
            let b = right.subrange(r, right_end);
            lemma_likened_longer(sides, matching, a, b);
            let alike = likened(matching, a, b, sides.left_prints, sides.right_prints);
            let others = free(b, alike.taken);
            lemma_zipped_longer(alike.matching, alike.rest, others, shorter(alike.rest, others));
            let group = group_matched(matching, a, b, sides.left_prints, sides.right_prints);
            lemma_longer(sides, group, left, right, left_end, right_end);
        }
    }
}

proof fn lemma_likened_longer(sides: Sides, matching: MatchingView, left: Seq<usize>, right: Seq<usize>)
    requires
        matching.pairs.len() > 0,
    ensures
        likened(matching, left, right, sides.left_prints, sides.right_prints).matching.pairs.len() > 0,
        likened(matching, left, right, sides.left_prints, sides.right_prints).matching.pairs[0] == matching.pairs[0],
    decreases left.len(),
{
    if left.len() > 0 {
        lemma_likened_longer(sides, matching, left.drop_last(), right);
    }
}

proof fn lemma_zipped_longer(matching: MatchingView, left: Seq<usize>, right: Seq<usize>, count: nat)
    requires
        matching.pairs.len() > 0,
    ensures
        zipped(matching, left, right, count).pairs.len() > 0,
        zipped(matching, left, right, count).pairs[0] == matching.pairs[0],
    decreases count,
{
    if count > 0 {
        lemma_zipped_longer(matching, left, right, (count - 1) as nat);
    }
}

proof fn lemma_first_pair(sides: Sides, steps: nat)
    ensures
        walked(sides, steps).pairs.len() > 0,
        walked(sides, steps).pairs[0] == (0usize, 0usize),
    decreases steps,
{
    if steps > 0 {
        lemma_first_pair(sides, (steps - 1) as nat);
        let before = walked(sides, (steps - 1) as nat);
        if steps - 1 < before.pairs.len() {
            let (l, r) = before.pairs[steps - 1];
            lemma_longer(
                sides,
                before,
                ordered_children(sides.left, sides.left[l as int].children@),
                ordered_children(sides.right, sides.right[r as int].children@),
                0,
                0,
            );
        }
    }
}

} // verus!
