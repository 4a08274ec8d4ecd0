//! What a difference is for: whatever has another value is in it.

use crate::attributes::{attribute_alike, maps_alike};
use crate::capture_laws::{lemma_ids_of, lemma_named_more, named};
use crate::hierarchy::{flat, flat_ids, ids, lemma_position, position, FlatView};
use crate::live_policy::location;
use crate::place::property_of;
use crate::project_diff::{
    added, addition_of, additions, changed, difference, lacking, lacking_list, lemma_latest, lemma_once, means_same,
    once, set_properties, update_of, updates, SameFrames,
};
use crate::reflection::Reflection;
use crate::snapshot::{AdditionView, NodeView, UpdateView};
use crate::text::text_bytes;
use crate::text_map::{lemma_ordered_keys, ordered_keys};
use crate::variant::{all_numbers_equal, bytes_equal, is_zero, number_size, AttributeView, VariantView};
use crate::tree::lemma_sorted_refs;
use crate::{Ref, NO_REF};
use vstd::prelude::*;

verus! {

// ---------------------------------------------------------------------------
// Values

/// How many bytes a number takes in a value of a kind that is made of numbers in floating
/// point. Any other kind is made of single bytes.
pub open spec fn word_size(kind: Seq<char>) -> int {
    if kind == "Float64"@ {
        8
    } else if kind == "Float32"@ || kind == "Vector2"@ || kind == "Vector3"@ || kind == "Color3"@ || kind == "CFrame"@ {
        4
    } else {
        1
    }
}

/// The last byte of a word that is zero but for its sign.
pub open spec fn ends_zero(bytes: Seq<u8>, at: int, size: int) -> bool {
    &&& at % size == size - 1
    &&& bytes[at] == 0 || bytes[at] == 128
    &&& forall|k: int| at - size < k < at ==> #[trigger] bytes[k] == 0
}

/// Bytes of a kind that are the same, up to the signs of zeros.
pub open spec fn same_bytes_of(kind: Seq<char>, left: Seq<u8>, right: Seq<u8>) -> bool {
    &&& left.len() == right.len()
    &&& word_size(kind) == 1 ==> left == right
    &&& forall|k: int|
        0 <= k < left.len() && #[trigger] left[k] != #[trigger] right[k] ==> ends_zero(left, k, word_size(kind))
            && ends_zero(right, k, word_size(kind))
}

/// Two attributes hold the same: a text may be carried as its bytes, and zeros may differ in
/// sign.
pub open spec fn attribute_holds_same(left: AttributeView, right: AttributeView) -> bool {
    match left {
        AttributeView::String(text) => match right {
            AttributeView::String(other) => text == other,
            AttributeView::BinaryString(bytes) => bytes == text_bytes(text),
            AttributeView::Opaque { .. } => false,
        },
        AttributeView::BinaryString(bytes) => match right {
            AttributeView::String(text) => bytes == text_bytes(text),
            AttributeView::BinaryString(other) => bytes == other,
            AttributeView::Opaque { .. } => false,
        },
        AttributeView::Opaque { kind, bytes } => match right {
            AttributeView::Opaque { kind: other, bytes: others } => kind == other && same_bytes_of(kind, bytes, others),
            _ => false,
        },
    }
}

/// Two values of a property hold the same.
pub open spec fn holds_same(name: Seq<char>, rounded: bool, left: VariantView, right: VariantView) -> bool {
    match left {
        VariantView::String(text) => match right {
            VariantView::String(other) => text == other,
            VariantView::BinaryString(bytes) => name == "Source"@ && bytes == text_bytes(text),
            _ => false,
        },
        VariantView::BinaryString(bytes) => match right {
            VariantView::String(text) => name == "Source"@ && bytes == text_bytes(text),
            VariantView::BinaryString(other) => name == "Attributes"@ || bytes == other,
            VariantView::Attributes(_) => name == "Attributes"@,
            _ => false,
        },
        VariantView::Attributes(values) => match right {
            VariantView::Attributes(others) => {
                &&& values.dom() == others.dom()
                &&& forall|key: Seq<char>| #[trigger]
                    values.dom().contains(key) ==> if name == "Attributes"@ {
                        attribute_holds_same(values[key], others[key])
                    } else {
                        values[key] == others[key]
                    }
            },
            VariantView::BinaryString(_) => name == "Attributes"@,
            _ => false,
        },
        VariantView::Opaque { kind, bytes } => match right {
            VariantView::Opaque { kind: other, bytes: others } => kind == other && (same_bytes_of(kind, bytes, others)
                || (rounded && kind == "CFrame"@)),
            _ => false,
        },
        _ => left == right,
    }
}

proof fn lemma_numbers(left: Seq<u8>, right: Seq<u8>, size: nat)
    requires
        size >= 2,
        all_numbers_equal(left, right, size),
    ensures
        left.len() == right.len(),
        forall|k: int|
            0 <= k < left.len() && #[trigger] left[k] != #[trigger] right[k] ==> ends_zero(left, k, size as int)
                && ends_zero(right, k, size as int),
    decreases left.len(),
{
    if left.len() >= size && right.len() >= size {
        let n = size as int;
        let a = left.take(n);
        let b = right.take(n);
        let more = left.skip(n);
        let others = right.skip(n);
        lemma_numbers(more, others, size);
        assert forall|k: int| 0 <= k < left.len() && #[trigger] left[k] != #[trigger] right[k] implies ends_zero(
            left,
            k,
            n,
        ) && ends_zero(right, k, n) by {
            if k < n {
                assert(a[k] == left[k] && b[k] == right[k]);
                assert(is_zero(a) && is_zero(b));
                if k < n - 1 {
                    assert(a[k] == 0 && b[k] == 0);
                }
                assert(a.last() == left[n - 1] && b.last() == right[n - 1]);
                assert(k % n == n - 1) by (nonlinear_arith)
                    requires
                        k == n - 1,
                        n >= 2,
                ;
                assert forall|m: int| k - n < m < k implies #[trigger] left[m] == 0 by {
                    assert(a[m] == left[m]);
                }
                assert forall|m: int| k - n < m < k implies #[trigger] right[m] == 0 by {
                    assert(b[m] == right[m]);
                }
            } else {
                assert(more[k - n] == left[k] && others[k - n] == right[k]);
                assert(ends_zero(more, k - n, n) && ends_zero(others, k - n, n));
                assert(k % n == (k - n) % n) by (nonlinear_arith)
                    requires
                        k >= n,
                        n >= 2,
                ;
                assert(k - n >= n - 1) by (nonlinear_arith)
                    requires
                        (k - n) % n == n - 1,
                        k - n >= 0,
                        n >= 2,
                ;
                assert forall|m: int| k - n < m < k implies #[trigger] left[m] == 0 by {
                    assert(more[m - n] == left[m]);
                }
                assert forall|m: int| k - n < m < k implies #[trigger] right[m] == 0 by {
                    assert(others[m - n] == right[m]);
                }
            }
        }
    }
}

proof fn lemma_bytes(kind: Seq<char>, left: Seq<u8>, right: Seq<u8>)
    requires
        bytes_equal(kind, left, right),
    ensures
        same_bytes_of(kind, left, right),
{
    if number_size(kind) >= 2 {
        lemma_numbers(left, right, number_size(kind));
    }
}

/// Attributes that count as the same hold the same: they are of one kind, with the same
/// bytes up to the signs of zeros, or the same text, which may be carried as its bytes.
/// Those that hold the same in kinds that are not made of numbers in floating point count
/// as the same.
pub proof fn law_alike_attributes_hold_the_same(left: AttributeView, right: AttributeView)
    ensures
        attribute_alike(left, right) ==> attribute_holds_same(left, right),
        attribute_holds_same(left, right) && (left matches AttributeView::Opaque { kind, .. } ==> word_size(kind) == 1)
            ==> attribute_alike(left, right),
{
    if attribute_alike(left, right) {
        if let (AttributeView::Opaque { kind, bytes }, AttributeView::Opaque { bytes: others, .. }) = (left, right) {
            lemma_bytes(kind, bytes, others);
        }
    } else if attribute_holds_same(left, right) {
        if let (AttributeView::Opaque { kind, bytes }, AttributeView::Opaque { bytes: others, .. }) = (left, right) {
            if word_size(kind) == 1 {
                assert(number_size(kind) == 0);
                assert(all_numbers_equal(bytes, others, 0));
            }
        }
    }
}

pub(crate) proof fn lemma_means(
    reflection: Reflection,
    frames: SameFrames,
    id: Ref,
    class: Seq<char>,
    name: Seq<char>,
    left: Option<VariantView>,
    right: Option<VariantView>,
)
    requires
        means_same(reflection, frames, id, class, name, left, right),
    ensures
        ({
            let x = if left is Some { left } else { reflection.default_of(class, name) };
            let y = if right is Some { right } else { reflection.default_of(class, name) };
            &&& x is Some == y is Some
            &&& x is Some ==> holds_same(name, frames.same(id, name), x->0, y->0)
        }),
{
    let x = if left is Some { left } else { reflection.default_of(class, name) };
    let y = if right is Some { right } else { reflection.default_of(class, name) };
    if x is Some && y is Some {
        if let (VariantView::Opaque { kind, bytes }, VariantView::Opaque { kind: other, bytes: others }) = (x->0, y->0) {
            if kind == other && bytes_equal(kind, bytes, others) {
                lemma_bytes(kind, bytes, others);
            }
        }
        if let (VariantView::Attributes(values), VariantView::Attributes(others)) = (x->0, y->0) {
            if name == "Attributes"@ {
                assert(maps_alike(values, others));
                assert forall|key: Seq<char>| #[trigger] values.dom().contains(key) implies attribute_holds_same(
                    values[key],
                    others[key],
                ) by {
                    law_alike_attributes_hold_the_same(values[key], others[key]);
                }
            }
        }
    }
}

// ---------------------------------------------------------------------------
// Differences

proof fn lemma_update_listed(
    reflection: Reflection,
    frames: SameFrames,
    earlier: Seq<FlatView>,
    list: Seq<FlatView>,
    at: int,
)
    requires
        0 <= at < list.len(),
        location(earlier, list[at].node.id) is Some,
        !update_of(reflection, frames, location(earlier, list[at].node.id)->0, list[at]).is_empty(),
    ensures
        updates(reflection, frames, earlier, list).contains(
            update_of(reflection, frames, location(earlier, list[at].node.id)->0, list[at]),
        ),
    decreases list.len(),
{
    let update = update_of(reflection, frames, location(earlier, list[at].node.id)->0, list[at]);
    let all = updates(reflection, frames, earlier, list);
    let before = updates(reflection, frames, earlier, list.drop_last());
    if at == list.len() - 1 {
        assert(all[all.len() - 1] == update);
    } else {
        assert(list.drop_last()[at] == list[at]);
        lemma_update_listed(reflection, frames, earlier, list.drop_last(), at);
        assert(all[before.index_of(update)] == update);
    }
}

/// The value of a property, or what its class has in its place.
pub open spec fn value_or_default(reflection: Reflection, class: Seq<char>, node: NodeView, name: Seq<char>) -> Option<
    VariantView,
> {
    if node.properties.dom().contains(name) {
        Some(node.properties[name])
    } else {
        reflection.default_of(class, name)
    }
}

/// A property does not hold in the later instance what it held in the earlier one.
pub open spec fn holds_other(
    reflection: Reflection,
    frames: SameFrames,
    before: NodeView,
    after: NodeView,
    name: Seq<char>,
) -> bool {
    let x = value_or_default(reflection, after.class, before, name);
    let y = value_or_default(reflection, after.class, after, name);
    &&& before.properties.dom().contains(name) || after.properties.dom().contains(name)
    &&& x is Some != y is Some || (x is Some && !holds_same(name, frames.same(after.id, name), x->0, y->0))
}

/// An update says what the later instance has in a property.
pub open spec fn says(update: UpdateView, after: NodeView, name: Seq<char>) -> bool {
    if after.properties.dom().contains(name) {
        update.properties matches Some(values) && values.dom().contains(name) && values[name] == after.properties[name]
    } else {
        update.removed_properties.contains(name)
    }
}

/// Whatever has another value is in the difference. Where an instance stands in both of two
/// places, whose identities differ from each other, and one of its properties does not hold
/// what it held, the difference has an update of that instance which says what it holds
/// now; and so it has for another name, another class or another parent. Only the name, the
/// parent and the two properties by which Studio tells instances apart are no such property.
pub proof fn law_differences_say_what_changed(
    reflection: Reflection,
    frames: SameFrames,
    before: NodeView,
    after: NodeView,
    i: int,
    j: int,
    name: Seq<char>,
)
    requires
        flat_ids(flat(before, None)).no_duplicates(),
        flat_ids(flat(after, None)).no_duplicates(),
        0 <= i < flat(before, None).len(),
        0 <= j < flat(after, None).len(),
        flat(before, None)[i].node.id == flat(after, None)[j].node.id,
        flat(before, None)[i].node.properties.dom().finite(),
    ensures
        ({
            let earlier = flat(before, None)[i];
            let later = flat(after, None)[j];
            let found = difference(reflection, frames, before, after).updates;
            &&& name != "Name"@ && name != "Parent"@ && name != "HistoryId"@ && name != "UniqueId"@ && holds_other(
                reflection,
                frames,
                earlier.node,
                later.node,
                name,
            ) ==> exists|k: int|
                0 <= k < found.len() && (#[trigger] found[k]).id == later.node.id && says(found[k], later.node, name)
            &&& earlier.node.name != later.node.name ==> exists|k: int|
                0 <= k < found.len() && (#[trigger] found[k]).id == later.node.id && found[k].name == Some(
                    later.node.name,
                ) && found[k].raw_name == later.node.raw_name
            &&& earlier.node.class != later.node.class ==> exists|k: int|
                0 <= k < found.len() && (#[trigger] found[k]).id == later.node.id && found[k].class == Some(
                    later.node.class,
                )
            &&& earlier.parent != later.parent && later.parent is Some ==> exists|k: int|
                0 <= k < found.len() && (#[trigger] found[k]).id == later.node.id && found[k].parent == later.parent
        }),
{
    let earlier = flat(before, None);
    let list = flat(after, None);
    let old = earlier[i];
    let new = list[j];
    lemma_latest(list, list.len());
    assert(list.take(list.len() as int) =~= list);
    lemma_position(earlier, new.node.id);
    let at = position(earlier, new.node.id)->0;
    assert(flat_ids(earlier)[at] == flat_ids(earlier)[i]);
    assert(location(earlier, new.node.id) == Some(old));
    let update = update_of(reflection, frames, old, new);
    let found = difference(reflection, frames, before, after).updates;
    if !update.is_empty() {
        lemma_update_listed(reflection, frames, earlier, list, j);
        let k = found.index_of(update);
        assert(found[k] == update);
    }
    if name != "Name"@ && name != "Parent"@ && name != "HistoryId"@ && name != "UniqueId"@ && holds_other(
        reflection,
        frames,
        old.node,
        new.node,
        name,
    ) {
        let x = property_of(old.node.properties, name);
        let y = property_of(new.node.properties, name);
        if means_same(reflection, frames, new.node.id, new.node.class, name, x, y) {
            lemma_means(reflection, frames, new.node.id, new.node.class, name, x, y);
        }
        assert(changed(reflection, frames, old.node, new.node, name));
        let set = set_properties(reflection, frames, old.node, new.node);
        if new.node.properties.dom().contains(name) {
            assert(set.dom().contains(name));
        } else {
            let gone = Set::new(
                |name: Seq<char>|
                    !new.node.properties.dom().contains(name) && changed(reflection, frames, old.node, new.node, name),
            );
            assert(gone.subset_of(old.node.properties.dom()));
            vstd::set_lib::lemma_set_subset_finite(old.node.properties.dom(), gone);
            lemma_ordered_keys(gone);
            assert(gone.contains(name));
            assert(ordered_keys(gone).to_set().contains(name));
            assert(update.removed_properties.contains(name));
            assert(update.removed_properties.len() > 0);
        }
        assert(!update.is_empty());
        assert(says(update, new.node, name));
    }
}

// ---------------------------------------------------------------------------
// Additions and removals

/// An addition is what stands there later: the same instance with everything below it, under
/// the parent that it has later, which was there before.
pub open spec fn adds_what_is_there(before: NodeView, after: NodeView, addition: AdditionView) -> bool {
    exists|at: int|
        0 <= at < flat(after, None).len() && (#[trigger] flat(after, None)[at]).node == addition.node && (
        if flat(after, None)[at].parent is Some {
            flat(after, None)[at].parent == Some(addition.parent) && ids(before).contains(addition.parent)
        } else {
            addition.parent == NO_REF
        })
}

proof fn lemma_additions(there: Set<Ref>, list: Seq<FlatView>, k: int) -> (at: int)
    requires
        0 <= k < additions(there, list).len(),
    ensures
        0 <= at < list.len(),
        additions(there, list)[k] == addition_of(list[at]),
        added(there, list[at]),
    decreases list.len(),
{
    let fewer = list.drop_last();
    let before = additions(there, fewer);
    if k < before.len() {
        let at = lemma_additions(there, fewer, k);
        assert(fewer[at] == list[at]);
        at
    } else {
        list.len() - 1
    }
}

proof fn lemma_lacking(node: NodeView, there: Set<Ref>)
    ensures
        forall|id: Ref| #[trigger] lacking(node, there).contains(id) ==> ids(node).contains(id) && !there.contains(id),
    decreases node, 1nat,
{
    lemma_ids_of(node);
    if !there.contains(node.id) {
        assert forall|id: Ref| #[trigger] lacking(node, there).contains(id) implies ids(node).contains(id)
            && !there.contains(id) by {
            assert(seq![node.id].contains(id));
        }
    } else {
        lemma_lacking_list(node.children, there);
        assert forall|id: Ref| #[trigger] lacking(node, there).contains(id) implies ids(node).contains(id)
            && !there.contains(id) by {
            assert(lacking_list(node.children, there).contains(id));
        }
    }
}

proof fn lemma_lacking_list(list: Seq<NodeView>, there: Set<Ref>)
    ensures
        forall|id: Ref| #[trigger]
            lacking_list(list, there).contains(id) ==> named(list).contains(id) && !there.contains(id),
    decreases list, 0nat,
{
    if list.len() > 0 {
        lemma_named_more(list);
        lemma_lacking_list(list.drop_last(), there);
        lemma_lacking(list.last(), there);
        let a = lacking_list(list.drop_last(), there);
        let b = lacking(list.last(), there);
        assert forall|id: Ref| #[trigger] lacking_list(list, there).contains(id) implies named(list).contains(id)
            && !there.contains(id) by {
            let at = (a + b).index_of(id);
            if at < a.len() {
                assert(a[at] == id);
                assert(a.contains(id));
            } else {
                assert(b[at - a.len()] == id);
                assert(b.contains(id));
            }
        }
    }
}

/// Nothing is added that was there, and nothing else is added than what is there later;
/// nothing is removed that was not there, or that is there later.
pub proof fn law_differences_add_and_remove_no_more(
    reflection: Reflection,
    frames: SameFrames,
    before: NodeView,
    after: NodeView,
)
    requires
        flat_ids(flat(after, None)).no_duplicates(),
    ensures
        ({
            let changes = difference(reflection, frames, before, after);
            &&& forall|k: int|
                0 <= k < changes.additions.len() ==> !ids(before).contains((#[trigger] changes.additions[k]).node.id)
                    && adds_what_is_there(before, after, changes.additions[k])
            &&& forall|id: Ref| #[trigger]
                changes.removals.contains(id) ==> ids(before).contains(id) && !ids(after).contains(id)
        }),
{
    let changes = difference(reflection, frames, before, after);
    let later = flat(after, None);
    lemma_latest(later, later.len());
    assert(later.take(later.len() as int) =~= later);
    assert forall|k: int| 0 <= k < changes.additions.len() implies !ids(before).contains(
        (#[trigger] changes.additions[k]).node.id,
    ) && adds_what_is_there(before, after, changes.additions[k]) by {
        let at = lemma_additions(ids(before), later, k);
        assert(flat(after, None)[at].node == changes.additions[k].node);
    }
    lemma_lacking(before, ids(after));
    lemma_once(lacking(before, ids(after)));
    lemma_sorted_refs(once(lacking(before, ids(after))));
}

} // verus!
