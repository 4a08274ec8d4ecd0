//! Which directories a served project watches, and which changes in them count.

use crate::text::{
    copy_texts, ends_with, is_before, lemma_text_before_total, lemma_text_before_transitive, same_texts, starts_with,
    text_before, texts,
};
use vstd::prelude::*;

verus! {

/// What paths stand for: their components.
pub open spec fn paths(list: Seq<Vec<String>>) -> Seq<Seq<Seq<char>>> {
    list.map_values(|path: Vec<String>| texts(path@))
}

/// The place of a component among the kinds of components: the root, the current
/// directory, the parent, and names.
pub open spec fn component_rank(component: Seq<char>) -> nat {
    if component == "/"@ {
        0
    } else if component == "."@ {
        1
    } else if component == ".."@ {
        2
    } else {
        3
    }
}

/// The order of components: by kind, names by their characters.
pub open spec fn component_before(left: Seq<char>, right: Seq<char>) -> bool {
    component_rank(left) < component_rank(right) || (component_rank(left) == component_rank(right) && text_before(
        left,
        right,
    ))
}

/// The order of paths, component by component; a path comes before what is below it.
pub open spec fn components_before(left: Seq<Seq<char>>, right: Seq<Seq<char>>) -> bool
    decreases left.len(),
{
    if left.len() == 0 || right.len() == 0 {
        left.len() < right.len()
    } else if left[0] != right[0] {
        component_before(left[0], right[0])
    } else {
        components_before(left.skip(1), right.skip(1))
    }
}

/// The order in which watched directories are considered: shorter paths first.
pub open spec fn path_before(left: Seq<Seq<char>>, right: Seq<Seq<char>>) -> bool {
    left.len() < right.len() || (left.len() == right.len() && components_before(left, right))
}

/// A path put into an ordered list, behind the equal ones.
pub open spec fn placed(list: Seq<Seq<Seq<char>>>, path: Seq<Seq<char>>) -> Seq<Seq<Seq<char>>>
    decreases list.len(),
{
    if list.len() > 0 && path_before(path, list.last()) {
        placed(list.drop_last(), path).push(list.last())
    } else {
        list.push(path)
    }
}

/// Paths in order.
pub open spec fn ordered_paths(list: Seq<Seq<Seq<char>>>) -> Seq<Seq<Seq<char>>>
    decreases list.len(),
{
    if list.len() == 0 {
        Seq::empty()
    } else {
        placed(ordered_paths(list.drop_last()), list.last())
    }
}

/// Some root is the path or lies above it.
pub open spec fn covered(roots: Seq<Seq<Seq<char>>>, path: Seq<Seq<char>>) -> bool {
    exists|k: int| 0 <= k < roots.len() && (#[trigger] roots[k]).is_prefix_of(path)
}

/// The roots, with each further path that none of them covers.
pub open spec fn extended(roots: Seq<Seq<Seq<char>>>, list: Seq<Seq<Seq<char>>>) -> Seq<Seq<Seq<char>>>
    decreases list.len(),
{
    if list.len() == 0 {
        roots
    } else {
        let before = extended(roots, list.drop_last());
        if covered(before, list.last()) {
            before
        } else {
            before.push(list.last())
        }
    }
}

/// The watched directories: the project's own, and the mapped ones outside of it
/// that no other one covers.
pub open spec fn watch_roots(project_root: Seq<Seq<char>>, mapped: Seq<Seq<Seq<char>>>) -> Seq<Seq<Seq<char>>> {
    extended(seq![project_root], ordered_paths(mapped))
}

/// Whether `path` is `root` or lies below it.
pub fn path_starts_with(path: &Vec<String>, root: &Vec<String>) -> (starts: bool)
    ensures
        starts == texts(root@).is_prefix_of(texts(path@)),
{
    if root.len() > path.len() {
        return false;
    }
    let mut at: usize = 0;
    while at < root.len()
        invariant
            root@.len() <= path@.len(),
            at <= root@.len(),
            forall|k: int| 0 <= k < at ==> texts(path@)[k] == texts(root@)[k],
        decreases root@.len() - at,
    {
        if !path[at].as_str().eq(root[at].as_str()) {
            proof {
                assert(texts(path@).subrange(0, root@.len() as int)[at as int] != texts(root@)[at as int]);
            }
            return false;
        }
        at = at + 1;
    }
    proof {
        assert(texts(root@) =~= texts(path@).subrange(0, root@.len() as int));
    }
    true
}

fn rank_of(component: &str) -> (rank: u8)
    ensures
        rank == component_rank(component@),
{
    if component.eq("/") {
        0
    } else if component.eq(".") {
        1
    } else if component.eq("..") {
        2
    } else {
        3
    }
}

fn is_component_before(left: &str, right: &str) -> (before: bool)
    ensures
        before == component_before(left@, right@),
{
    let left_rank: u8 = rank_of(left);
    let right_rank: u8 = rank_of(right);
    left_rank < right_rank || (left_rank == right_rank && is_before(left, right))
}

/// Whether a path comes before another, component by component.
pub(crate) fn are_components_before(left: &Vec<String>, right: &Vec<String>) -> (before: bool)
    ensures
        before == components_before(texts(left@), texts(right@)),
{
    let mut at: usize = 0;
    proof {
        assert(texts(left@).skip(0) =~= texts(left@));
        assert(texts(right@).skip(0) =~= texts(right@));
    }
    while at < left.len() && at < right.len()
        invariant
            at <= left@.len(),
            at <= right@.len(),
            components_before(texts(left@), texts(right@)) == components_before(
                texts(left@).skip(at as int),
                texts(right@).skip(at as int),
            ),
        decreases left@.len() - at,
    {
        proof {
            assert(texts(left@).skip(at as int)[0] == left@[at as int]@);
            assert(texts(right@).skip(at as int)[0] == right@[at as int]@);
            assert(texts(left@).skip(at as int).skip(1) =~= texts(left@).skip(at + 1));
            assert(texts(right@).skip(at as int).skip(1) =~= texts(right@).skip(at + 1));
        }
        if !left[at].as_str().eq(right[at].as_str()) {
            return is_component_before(left[at].as_str(), right[at].as_str());
        }
        at = at + 1;
    }
    left.len() < right.len()
}

fn is_path_before(left: &Vec<String>, right: &Vec<String>) -> (before: bool)
    ensures
        before == path_before(texts(left@), texts(right@)),
{
    left.len() < right.len() || (left.len() == right.len() && are_components_before(left, right))
}

proof fn lemma_placed_at(list: Seq<Seq<Seq<char>>>, path: Seq<Seq<char>>, at: int)
    requires
        0 <= at <= list.len(),
        forall|k: int| at <= k < list.len() ==> path_before(path, #[trigger] list[k]),
        at > 0 ==> !path_before(path, list[at - 1]),
    ensures
        placed(list, path) == list.insert(at, path),
    decreases list.len(),
{
    if at == list.len() {
        assert(list.push(path) =~= list.insert(at, path));
    } else {
        let rest = list.drop_last();
        assert forall|k: int| at <= k < rest.len() implies path_before(path, #[trigger] rest[k]) by {
            assert(list[k] == rest[k]);
        }
        assert(path_before(path, list[list.len() - 1]));
        lemma_placed_at(rest, path, at);
        assert(rest.insert(at, path).push(list.last()) =~= list.insert(at, path));
    }
}

fn ordered(list: &Vec<Vec<String>>) -> (sorted: Vec<Vec<String>>)
    ensures
        paths(sorted@) == ordered_paths(paths(list@)),
{
    let mut sorted: Vec<Vec<String>> = Vec::new();
    let ghost all = paths(list@);
    let mut next: usize = 0;
    proof {
        assert(all.take(0) =~= Seq::empty());
        assert(paths(sorted@) =~= Seq::empty());
    }
    while next < list.len()
        invariant
            next <= list@.len(),
            all == paths(list@),
            paths(sorted@) == ordered_paths(all.take(next as int)),
        decreases list@.len() - next,
    {
        let ghost before = paths(sorted@);
        let ghost path = all[next as int];
        let mut at: usize = sorted.len();
        while at > 0 && is_path_before(&list[next], &sorted[at - 1])
            invariant
                next < list@.len(),
                path == texts(list@[next as int]@),
                before == paths(sorted@),
                at <= sorted@.len(),
                forall|k: int| at <= k < before.len() ==> path_before(path, #[trigger] before[k]),
            decreases at,
        {
            at = at - 1;
        }
        let copy: Vec<String> = copy_texts(&list[next]);
        sorted.insert(at, copy);
        proof {
            lemma_placed_at(before, path, at as int);
            assert(paths(sorted@) =~= before.insert(at as int, path));
            assert(all.take(next + 1).drop_last() =~= all.take(next as int));
            assert(all.take(next + 1).last() == path);
        }
        next = next + 1;
    }
    proof {
        assert(all.take(list@.len() as int) =~= all);
    }
    sorted
}

fn is_covered(roots: &Vec<Vec<String>>, path: &Vec<String>) -> (found: bool)
    ensures
        found == covered(paths(roots@), texts(path@)),
{
    let mut at: usize = 0;
    while at < roots.len()
        invariant
            at <= roots@.len(),
            forall|k: int| 0 <= k < at ==> !(#[trigger] paths(roots@)[k]).is_prefix_of(texts(path@)),
        decreases roots@.len() - at,
    {
        if path_starts_with(path, &roots[at]) {
            proof {
                assert(paths(roots@)[at as int].is_prefix_of(texts(path@)));
            }
            return true;
        }
        at = at + 1;
    }
    false
}

/// Which directories to watch.
pub fn project_watch_roots(project_root: &Vec<String>, mapped_watch_roots: &Vec<Vec<String>>) -> (roots: Vec<
    Vec<String>,
>)
    ensures
        paths(roots@) == watch_roots(texts(project_root@), paths(mapped_watch_roots@)),
{
    let mut roots: Vec<Vec<String>> = Vec::new();
    roots.push(copy_texts(project_root));
    let candidates: Vec<Vec<String>> = ordered(mapped_watch_roots);
    let ghost base = seq![texts(project_root@)];
    let ghost all = paths(candidates@);
    let mut at: usize = 0;
    proof {
        assert(paths(roots@) =~= base);
        assert(all.take(0) =~= Seq::empty());
    }
    while at < candidates.len()
        invariant
            at <= candidates@.len(),
            all == paths(candidates@),
            paths(roots@) == extended(base, all.take(at as int)),
        decreases candidates@.len() - at,
    {
        proof {
            assert(all.take(at + 1).drop_last() =~= all.take(at as int));
            assert(all.take(at + 1).last() == texts(candidates@[at as int]@));
        }
        if !is_covered(&roots, &candidates[at]) {
            let ghost before = paths(roots@);
            let copy: Vec<String> = copy_texts(&candidates[at]);
            roots.push(copy);
            proof {
                assert(paths(roots@) =~= before.push(texts(candidates@[at as int]@)));
            }
        }
        at = at + 1;
    }
    proof {
        assert(all.take(candidates@.len() as int) =~= all);
    }
    roots
}

/// Paths by their lengths.
spec fn by_length(list: Seq<Seq<Seq<char>>>) -> bool {
    forall|i: int, j: int| 0 <= i < j < list.len() ==> (#[trigger] list[i]).len() <= (#[trigger] list[j]).len()
}

proof fn lemma_placed(list: Seq<Seq<Seq<char>>>, path: Seq<Seq<char>>)
    requires
        by_length(list),
    ensures
        by_length(placed(list, path)),
        forall|p: Seq<Seq<char>>| #[trigger] placed(list, path).contains(p) <==> p == path || list.contains(p),
        placed(list, path).len() == list.len() + 1,
        placed(list, path).last() == path || (list.len() > 0 && placed(list, path).last() == list.last()),
    decreases list.len(),
{
    if list.len() > 0 && path_before(path, list.last()) {
        let rest = list.drop_last();
        assert(by_length(rest)) by {
            assert forall|i: int, j: int| 0 <= i < j < rest.len() implies (#[trigger] rest[i]).len() <= (
            #[trigger] rest[j]).len() by {
                assert(list[i].len() <= list[j].len());
            }
        }
        lemma_placed(rest, path);
        let inner = placed(rest, path);
        let whole = placed(list, path);
        assert forall|i: int, j: int| 0 <= i < j < whole.len() implies (#[trigger] whole[i]).len() <= (
        #[trigger] whole[j]).len() by {
            if j < inner.len() {
                assert(inner[i].len() <= inner[j].len());
            } else {
                assert(inner.contains(inner[i]));
                if inner[i] != path {
                    let k = choose|k: int| 0 <= k < rest.len() && rest[k] == inner[i];
                    assert(list[k].len() <= list[list.len() - 1].len());
                }
            }
        }
        assert forall|p: Seq<Seq<char>>| #[trigger] whole.contains(p) <==> p == path || list.contains(p) by {
            if whole.contains(p) {
                let k = choose|k: int| 0 <= k < whole.len() && whole[k] == p;
                if k < inner.len() {
                    assert(inner.contains(p));
                    if p != path {
                        let m = choose|m: int| 0 <= m < rest.len() && rest[m] == p;
                        assert(list[m] == p);
                    }
                } else {
                    assert(list[list.len() - 1] == p);
                }
            }
            if p == path || rest.contains(p) {
                assert(inner.contains(p));
                let k = choose|k: int| 0 <= k < inner.len() && inner[k] == p;
                assert(whole[k] == p);
            }
            if list.contains(p) && !rest.contains(p) {
                let k = choose|k: int| 0 <= k < list.len() && list[k] == p;
                if k < rest.len() {
                    assert(rest[k] == p);
                }
                assert(whole[whole.len() - 1] == p);
            }
        }
    } else {
        let whole = list.push(path);
        assert forall|p: Seq<Seq<char>>| #[trigger] whole.contains(p) <==> p == path || list.contains(p) by {
            if p == path {
                assert(whole[list.len() as int] == p);
            }
            if list.contains(p) {
                let k = choose|k: int| 0 <= k < list.len() && list[k] == p;
                assert(whole[k] == p);
            }
        }
        assert forall|i: int, j: int| 0 <= i < j < whole.len() implies (#[trigger] whole[i]).len() <= (
        #[trigger] whole[j]).len() by {
            if list.len() > 0 && j == list.len() {
                assert(list[i].len() <= list[list.len() - 1].len() || i == list.len() - 1);
            }
        }
    }
}

proof fn lemma_ordered(list: Seq<Seq<Seq<char>>>)
    ensures
        by_length(ordered_paths(list)),
        forall|p: Seq<Seq<char>>| #[trigger] list.contains(p) ==> ordered_paths(list).contains(p),
    decreases list.len(),
{
    if list.len() > 0 {
        let rest = list.drop_last();
        lemma_ordered(rest);
        lemma_placed(ordered_paths(rest), list.last());
        assert forall|p: Seq<Seq<char>>| #[trigger] list.contains(p) implies ordered_paths(list).contains(p) by {
            let k = choose|k: int| 0 <= k < list.len() && list[k] == p;
            if k < rest.len() {
                assert(rest[k] == p);
                assert(rest.contains(p));
            }
        }
    }
}

proof fn lemma_extended(roots: Seq<Seq<Seq<char>>>, list: Seq<Seq<Seq<char>>>)
    requires
        roots.len() == 1,
        by_length(list),
    ensures
        extended(roots, list).len() >= 1,
        extended(roots, list)[0] == roots[0],
        forall|i: int, j: int|
            0 <= i < j < extended(roots, list).len() ==> !(#[trigger] extended(roots, list)[i]).is_prefix_of(
                #[trigger] extended(roots, list)[j],
            ),
        forall|i: int, j: int|
            1 <= i < j < extended(roots, list).len() ==> !(#[trigger] extended(roots, list)[j]).is_prefix_of(
                #[trigger] extended(roots, list)[i],
            ),
        list.len() > 0 ==> forall|i: int|
            1 <= i < extended(roots, list).len() ==> (#[trigger] extended(roots, list)[i]).len()
                <= list.last().len(),
        list.len() == 0 ==> extended(roots, list).len() == 1,
        forall|k: int| 0 <= k < list.len() ==> covered(extended(roots, list), #[trigger] list[k]),
    decreases list.len(),
{
    if list.len() > 0 {
        let rest = list.drop_last();
        assert(by_length(rest)) by {
            assert forall|i: int, j: int| 0 <= i < j < rest.len() implies (#[trigger] rest[i]).len() <= (
            #[trigger] rest[j]).len() by {
                assert(list[i].len() <= list[j].len());
            }
        }
        lemma_extended(roots, rest);
        let before = extended(roots, rest);
        let whole = extended(roots, list);
        let last = list.last();
        if rest.len() > 0 {
            assert(list[list.len() - 2].len() <= list[list.len() - 1].len());
        }
        assert forall|i: int| 1 <= i < before.len() implies (#[trigger] before[i]).len() <= last.len() by {}
        assert forall|i: int, j: int| 0 <= i < j < whole.len() implies !(#[trigger] whole[i]).is_prefix_of(
            #[trigger] whole[j],
        ) by {
            if j < before.len() {
                assert(!before[i].is_prefix_of(before[j]));
            } else {
                assert(!before[i].is_prefix_of(last));
            }
        }
        assert forall|i: int, j: int| 1 <= i < j < whole.len() implies !(#[trigger] whole[j]).is_prefix_of(
            #[trigger] whole[i],
        ) by {
            if j < before.len() {
                assert(!before[j].is_prefix_of(before[i]));
            } else if last.is_prefix_of(before[i]) {
                assert(before[i].len() <= last.len());
                assert(last =~= before[i]);
                assert(before[i].is_prefix_of(last));
            }
        }
        assert forall|k: int| 0 <= k < list.len() implies covered(whole, #[trigger] list[k]) by {
            if k < rest.len() {
                assert(rest[k] == list[k]);
                assert(covered(before, rest[k]));
                let m = choose|m: int| 0 <= m < before.len() && (#[trigger] before[m]).is_prefix_of(rest[k]);
                assert(whole[m] == before[m]);
            } else if covered(before, last) {
                assert(whole == before);
            } else {
                assert(whole[before.len() as int] == last);
                assert(last.is_prefix_of(last)) by {
                    assert(last =~= last.subrange(0, last.len() as int));
                }
            }
        }
    }
}

/// Every mapped directory is watched, by itself or through one above it; no
/// watched directory lies below the project's own, and none of the others lies
/// below another.
pub proof fn law_watch_roots_cover_without_nesting(project_root: Seq<Seq<char>>, mapped: Seq<Seq<Seq<char>>>)
    ensures
        watch_roots(project_root, mapped).len() > 0,
        watch_roots(project_root, mapped)[0] == project_root,
        forall|path: Seq<Seq<char>>| #[trigger]
            mapped.contains(path) ==> covered(watch_roots(project_root, mapped), path),
        forall|i: int, j: int|
            0 <= i < watch_roots(project_root, mapped).len() && 1 <= j < watch_roots(project_root, mapped).len() && i
                != j ==> !(#[trigger] watch_roots(project_root, mapped)[i]).is_prefix_of(
                #[trigger] watch_roots(project_root, mapped)[j],
            ),
{
    let sorted = ordered_paths(mapped);
    lemma_ordered(mapped);
    lemma_extended(seq![project_root], sorted);
    assert forall|path: Seq<Seq<char>>| #[trigger] mapped.contains(path) implies covered(
        watch_roots(project_root, mapped),
        path,
    ) by {
        assert(sorted.contains(path));
        let k = choose|k: int| 0 <= k < sorted.len() && sorted[k] == path;
        assert(covered(extended(seq![project_root], sorted), sorted[k]));
    }
}

/// Components are in a total order.
proof fn lemma_component_order(a: Seq<char>, b: Seq<char>, c: Seq<char>)
    ensures
        a != b ==> component_before(a, b) || component_before(b, a),
        !(component_before(a, b) && component_before(b, a)),
        !component_before(a, a),
        component_before(a, b) && component_before(b, c) ==> component_before(a, c),
{
    lemma_text_before_total(a, b);
    lemma_text_before_total(a, a);
    if text_before(a, b) && text_before(b, c) {
        lemma_text_before_transitive(a, b, c);
    }
}

proof fn lemma_components_order(a: Seq<Seq<char>>, b: Seq<Seq<char>>, c: Seq<Seq<char>>)
    ensures
        a != b ==> components_before(a, b) || components_before(b, a),
        !(components_before(a, b) && components_before(b, a)),
        components_before(a, b) && components_before(b, c) ==> components_before(a, c),
    decreases a.len(),
{
    if a.len() == 0 || b.len() == 0 {
        if a.len() == 0 && b.len() == 0 {
            assert(a =~= b);
        }
    } else {
        lemma_component_order(a[0], b[0], if c.len() > 0 {
            c[0]
        } else {
            a[0]
        });
        lemma_components_order(a.skip(1), b.skip(1), c.skip(1));
        if c.len() > 0 {
            lemma_component_order(b[0], c[0], a[0]);
        }
        if a[0] == b[0] && a.skip(1) == b.skip(1) {
            assert(a =~= seq![a[0]] + a.skip(1));
            assert(b =~= seq![b[0]] + b.skip(1));
        }
    }
}

/// Paths are in a total order.
proof fn lemma_path_order(a: Seq<Seq<char>>, b: Seq<Seq<char>>, c: Seq<Seq<char>>)
    ensures
        a != b ==> path_before(a, b) || path_before(b, a),
        !(path_before(a, b) && path_before(b, a)),
        path_before(a, b) && path_before(b, c) ==> path_before(a, c),
{
    lemma_components_order(a, b, c);
}

/// No path comes before one that stands ahead of it.
spec fn in_path_order(list: Seq<Seq<Seq<char>>>) -> bool {
    forall|i: int, j: int| 0 <= i < j < list.len() ==> !path_before(#[trigger] list[j], #[trigger] list[i])
}

proof fn lemma_placed_in_order(list: Seq<Seq<Seq<char>>>, path: Seq<Seq<char>>)
    requires
        in_path_order(list),
    ensures
        in_path_order(placed(list, path)),
    decreases list.len(),
{
    let whole = placed(list, path);
    assert(by_length(list)) by {
        assert forall|i: int, j: int| 0 <= i < j < list.len() implies (#[trigger] list[i]).len() <= (
        #[trigger] list[j]).len() by {
            assert(!path_before(list[j], list[i]));
        }
    }
    if list.len() > 0 && path_before(path, list.last()) {
        let rest = list.drop_last();
        let last = list.last();
        assert(in_path_order(rest)) by {
            assert forall|i: int, j: int| 0 <= i < j < rest.len() implies !path_before(
                #[trigger] rest[j],
                #[trigger] rest[i],
            ) by {
                assert(!path_before(list[j], list[i]));
            }
        }
        assert(by_length(rest)) by {
            assert forall|i: int, j: int| 0 <= i < j < rest.len() implies (#[trigger] rest[i]).len() <= (
            #[trigger] rest[j]).len() by {
                assert(list[i].len() <= list[j].len());
            }
        }
        lemma_placed_in_order(rest, path);
        lemma_placed(rest, path);
        let inner = placed(rest, path);
        assert forall|i: int, j: int| 0 <= i < j < whole.len() implies !path_before(
            #[trigger] whole[j],
            #[trigger] whole[i],
        ) by {
            if j < inner.len() {
                assert(!path_before(inner[j], inner[i]));
            } else {
                assert(inner.contains(inner[i]));
                if inner[i] == path {
                    lemma_path_order(path, last, path);
                } else {
                    let k = choose|k: int| 0 <= k < rest.len() && rest[k] == inner[i];
                    assert(!path_before(list[list.len() - 1], list[k]));
                }
            }
        }
    } else {
        assert forall|i: int, j: int| 0 <= i < j < whole.len() implies !path_before(
            #[trigger] whole[j],
            #[trigger] whole[i],
        ) by {
            if j < list.len() {
                assert(!path_before(list[j], list[i]));
            } else {
                let last = list.last();
                if i < list.len() - 1 {
                    assert(!path_before(list[list.len() - 1], list[i]));
                }
                lemma_path_order(list[i], last, path);
                lemma_path_order(path, list[i], last);
            }
        }
    }
}

proof fn lemma_sorted(list: Seq<Seq<Seq<char>>>)
    ensures
        in_path_order(ordered_paths(list)),
        forall|p: Seq<Seq<char>>| #[trigger] ordered_paths(list).contains(p) ==> list.contains(p),
    decreases list.len(),
{
    if list.len() > 0 {
        let rest = list.drop_last();
        lemma_sorted(rest);
        lemma_ordered(rest);
        lemma_placed(ordered_paths(rest), list.last());
        lemma_placed_in_order(ordered_paths(rest), list.last());
        assert forall|p: Seq<Seq<char>>| #[trigger] ordered_paths(list).contains(p) implies list.contains(p) by {
            if p == list.last() {
                assert(list[list.len() - 1] == p);
            } else {
                assert(ordered_paths(rest).contains(p));
                let k = choose|k: int| 0 <= k < rest.len() && rest[k] == p;
                assert(list[k] == p);
            }
        }
    }
}

/// What is added to the roots comes from the list, in its order.
proof fn lemma_extended_tail(roots: Seq<Seq<Seq<char>>>, list: Seq<Seq<Seq<char>>>)
    requires
        roots.len() == 1,
        in_path_order(list),
    ensures
        extended(roots, list).len() >= 1,
        forall|i: int| 1 <= i < extended(roots, list).len() ==> list.contains(#[trigger] extended(roots, list)[i]),
        forall|i: int, j: int|
            1 <= i < j < extended(roots, list).len() ==> !path_before(
                #[trigger] extended(roots, list)[j],
                #[trigger] extended(roots, list)[i],
            ),
    decreases list.len(),
{
    if list.len() > 0 {
        let rest = list.drop_last();
        assert(in_path_order(rest)) by {
            assert forall|i: int, j: int| 0 <= i < j < rest.len() implies !path_before(
                #[trigger] rest[j],
                #[trigger] rest[i],
            ) by {
                assert(!path_before(list[j], list[i]));
            }
        }
        lemma_extended_tail(roots, rest);
        let before = extended(roots, rest);
        let whole = extended(roots, list);
        assert forall|i: int| 1 <= i < whole.len() implies list.contains(#[trigger] whole[i]) by {
            if i < before.len() {
                assert(rest.contains(before[i]));
                let k = choose|k: int| 0 <= k < rest.len() && rest[k] == before[i];
                assert(list[k] == whole[i]);
            } else {
                assert(list[list.len() - 1] == whole[i]);
            }
        }
        assert forall|i: int, j: int| 1 <= i < j < whole.len() implies !path_before(
            #[trigger] whole[j],
            #[trigger] whole[i],
        ) by {
            if j < before.len() {
                assert(!path_before(before[j], before[i]));
            } else {
                assert(rest.contains(before[i]));
                let k = choose|k: int| 0 <= k < rest.len() && rest[k] == before[i];
                assert(!path_before(list[list.len() - 1], list[k]));
            }
        }
    }
}

/// A mapped directory that neither the project's own nor another mapped one covers.
spec fn is_outermost(project_root: Seq<Seq<char>>, mapped: Seq<Seq<Seq<char>>>, path: Seq<Seq<char>>) -> bool {
    &&& mapped.contains(path)
    &&& !project_root.is_prefix_of(path)
    &&& forall|q: Seq<Seq<char>>| #[trigger] mapped.contains(q) && q.is_prefix_of(path) ==> q == path
}

proof fn lemma_prefixes(a: Seq<Seq<char>>, b: Seq<Seq<char>>, c: Seq<Seq<char>>)
    ensures
        a.is_prefix_of(b) && b.is_prefix_of(c) ==> a.is_prefix_of(c),
        a.is_prefix_of(b) && b.is_prefix_of(a) ==> a == b,
{
    if a.is_prefix_of(b) && b.is_prefix_of(c) {
        assert forall|k: int| 0 <= k < a.len() implies a[k] == c[k] by {
            assert(a[k] == b.subrange(0, a.len() as int)[k]);
            assert(b[k] == c.subrange(0, b.len() as int)[k]);
        }
        assert(a =~= c.subrange(0, a.len() as int));
    }
    if a.is_prefix_of(b) && b.is_prefix_of(a) {
        assert(a =~= b);
    }
}

/// The watched directories after the project's own are the outermost mapped ones.
proof fn lemma_outermost(project_root: Seq<Seq<char>>, mapped: Seq<Seq<Seq<char>>>, path: Seq<Seq<char>>)
    ensures
        watch_roots(project_root, mapped).skip(1).contains(path) <==> is_outermost(project_root, mapped, path),
{
    let roots = watch_roots(project_root, mapped);
    law_watch_roots_cover_without_nesting(project_root, mapped);
    lemma_sorted(mapped);
    lemma_extended_tail(seq![project_root], ordered_paths(mapped));
    let tail = roots.skip(1);
    if tail.contains(path) {
        let at = choose|k: int| 0 <= k < tail.len() && tail[k] == path;
        assert(roots[at + 1] == path);
        assert(ordered_paths(mapped).contains(path));
        assert(!roots[0].is_prefix_of(roots[at + 1]));
        assert forall|q: Seq<Seq<char>>| #[trigger] mapped.contains(q) && q.is_prefix_of(path) implies q == path by {
            assert(covered(roots, q));
            let m = choose|m: int| 0 <= m < roots.len() && (#[trigger] roots[m]).is_prefix_of(q);
            lemma_prefixes(roots[m], q, path);
            assert(roots[m].is_prefix_of(roots[at + 1]));
            assert(m == at + 1);
            lemma_prefixes(path, q, path);
        }
    }
    if is_outermost(project_root, mapped, path) {
        assert(covered(roots, path));
        let m = choose|m: int| 0 <= m < roots.len() && (#[trigger] roots[m]).is_prefix_of(path);
        assert(m != 0);
        assert(ordered_paths(mapped).contains(roots[m]));
        assert(mapped.contains(roots[m]));
        assert(tail[m - 1] == path);
    }
}

/// Lists in strict order with the same members are the same.
proof fn lemma_same_order(a: Seq<Seq<Seq<char>>>, b: Seq<Seq<Seq<char>>>)
    requires
        forall|i: int, j: int| 0 <= i < j < a.len() ==> path_before(#[trigger] a[i], #[trigger] a[j]),
        forall|i: int, j: int| 0 <= i < j < b.len() ==> path_before(#[trigger] b[i], #[trigger] b[j]),
        forall|p: Seq<Seq<char>>| #[trigger] a.contains(p) <==> b.contains(p),
    ensures
        a == b,
    decreases a.len(),
{
    if a.len() == 0 {
        if b.len() > 0 {
            assert(b.contains(b[0]) && !a.contains(b[0]));
        }
        assert(a =~= b);
    } else {
        assert(a.contains(a[a.len() - 1]));
        assert(b.len() > 0);
        assert(b.contains(b[b.len() - 1]) && a.contains(b[b.len() - 1]));
        let i = b.index_of(a.last());
        let j = a.index_of(b.last());
        assert(b[i] == a[a.len() - 1]);
        assert(a[j] == b[b.len() - 1]);
        lemma_path_order(a.last(), b.last(), a.last());
        assert(a.last() == b.last());
        let shorter_a = a.drop_last();
        let shorter_b = b.drop_last();
        assert forall|p: Seq<Seq<char>>| #[trigger] shorter_a.contains(p) <==> shorter_b.contains(p) by {
            lemma_path_order(p, p, p);
            if shorter_a.contains(p) {
                let k = shorter_a.index_of(p);
                assert(a[k] == p);
                assert(path_before(a[k], a[a.len() - 1]));
                assert(a.contains(p));
                let l = b.index_of(p);
                assert(b[l] == p);
                assert(l < b.len() - 1);
                assert(shorter_b[l] == p);
            }
            if shorter_b.contains(p) {
                let k = shorter_b.index_of(p);
                assert(b[k] == p);
                assert(path_before(b[k], b[b.len() - 1]));
                assert(b.contains(p) && a.contains(p));
                let l = a.index_of(p);
                assert(a[l] == p);
                assert(l < a.len() - 1);
                assert(shorter_a[l] == p);
            }
        }
        lemma_same_order(shorter_a, shorter_b);
        assert(a =~= shorter_a.push(a.last()));
        assert(b =~= shorter_b.push(b.last()));
    }
}

/// The watched directories after the project's own are mapped ones, in order: shorter
/// paths first, and none twice.
pub proof fn law_watch_roots_are_in_order(project_root: Seq<Seq<char>>, mapped: Seq<Seq<Seq<char>>>)
    ensures
        forall|i: int|
            1 <= i < watch_roots(project_root, mapped).len() ==> mapped.contains(
                #[trigger] watch_roots(project_root, mapped)[i],
            ),
        forall|i: int, j: int|
            1 <= i < j < watch_roots(project_root, mapped).len() ==> path_before(
                #[trigger] watch_roots(project_root, mapped)[i],
                #[trigger] watch_roots(project_root, mapped)[j],
            ),
{
    let roots = watch_roots(project_root, mapped);
    law_watch_roots_cover_without_nesting(project_root, mapped);
    lemma_sorted(mapped);
    lemma_extended_tail(seq![project_root], ordered_paths(mapped));
    assert forall|i: int| 1 <= i < roots.len() implies mapped.contains(#[trigger] roots[i]) by {
        assert(ordered_paths(mapped).contains(roots[i]));
    }
    assert forall|i: int, j: int| 1 <= i < j < roots.len() implies path_before(
        #[trigger] roots[i],
        #[trigger] roots[j],
    ) by {
        assert(!roots[i].is_prefix_of(roots[j]));
        if roots[i] == roots[j] {
            assert(roots[i] =~= roots[j].subrange(0, roots[i].len() as int));
        }
        assert(!path_before(roots[j], roots[i]));
        lemma_path_order(roots[i], roots[j], roots[i]);
    }
}

/// The watched directories depend on which directories are mapped, not on the order in
/// which they are listed nor on how often.
pub proof fn law_watch_roots_forget_order(
    project_root: Seq<Seq<char>>,
    mapped: Seq<Seq<Seq<char>>>,
    other: Seq<Seq<Seq<char>>>,
)
    requires
        forall|path: Seq<Seq<char>>| #[trigger] mapped.contains(path) <==> other.contains(path),
    ensures
        watch_roots(project_root, mapped) == watch_roots(project_root, other),
{
    let a = watch_roots(project_root, mapped);
    let b = watch_roots(project_root, other);
    law_watch_roots_cover_without_nesting(project_root, mapped);
    law_watch_roots_cover_without_nesting(project_root, other);
    law_watch_roots_are_in_order(project_root, mapped);
    law_watch_roots_are_in_order(project_root, other);
    let tail_a = a.skip(1);
    let tail_b = b.skip(1);
    assert forall|i: int, j: int| 0 <= i < j < tail_a.len() implies path_before(
        #[trigger] tail_a[i],
        #[trigger] tail_a[j],
    ) by {
        assert(path_before(a[i + 1], a[j + 1]));
    }
    assert forall|i: int, j: int| 0 <= i < j < tail_b.len() implies path_before(
        #[trigger] tail_b[i],
        #[trigger] tail_b[j],
    ) by {
        assert(path_before(b[i + 1], b[j + 1]));
    }
    assert forall|path: Seq<Seq<char>>| #[trigger] tail_a.contains(path) <==> tail_b.contains(path) by {
        lemma_outermost(project_root, mapped, path);
        lemma_outermost(project_root, other, path);
        assert(mapped.contains(path) <==> other.contains(path));
        if is_outermost(project_root, mapped, path) {
            assert forall|q: Seq<Seq<char>>| #[trigger] other.contains(q) && q.is_prefix_of(path) implies q == path by {
                assert(mapped.contains(q));
            }
        }
    }
    lemma_same_order(tail_a, tail_b);
    assert(a =~= seq![a[0]] + tail_a);
    assert(b =~= seq![b[0]] + tail_b);
}

/// A name that the service itself gives to passing files.
pub open spec fn is_own_name(name: Seq<char>, backup_prefix: Seq<char>) -> bool {
    ||| ".carbon-"@.is_prefix_of(name)
    ||| backup_prefix.is_prefix_of(name)
    ||| ".transaction.json"@.is_suffix_of(name)
}

/// A change at a path counts: it lies below a watched directory, not in the
/// generated data, and no part of it is a passing file of the service.
pub open spec fn relevant(
    path: Seq<Seq<char>>,
    roots: Seq<Seq<Seq<char>>>,
    generated_data: Seq<Seq<char>>,
    backup_prefix: Seq<char>,
) -> bool {
    &&& covered(roots, path)
    &&& !generated_data.is_prefix_of(path)
    &&& forall|k: int| 0 <= k < path.len() ==> !is_own_name(#[trigger] path[k], backup_prefix)
}

fn is_relevant(
    path: &Vec<String>,
    roots: &Vec<Vec<String>>,
    generated_data: &Vec<String>,
    backup_prefix: &str,
) -> (counts: bool)
    ensures
        counts == relevant(texts(path@), paths(roots@), texts(generated_data@), backup_prefix@),
{
    if !is_covered(roots, path) || path_starts_with(path, generated_data) {
        return false;
    }
    let mut at: usize = 0;
    while at < path.len()
        invariant
            at <= path@.len(),
            forall|k: int| 0 <= k < at ==> !is_own_name(#[trigger] texts(path@)[k], backup_prefix@),
        decreases path@.len() - at,
    {
        let name: &str = path[at].as_str();
        if starts_with(name, ".carbon-") || starts_with(name, backup_prefix) || ends_with(name, ".transaction.json") {
            proof {
                assert(is_own_name(texts(path@)[at as int], backup_prefix@));
            }
            return false;
        }
        at = at + 1;
    }
    true
}

/// Whether an event counts: one of its paths does.
pub fn is_relevant_event(
    event_paths: &Vec<Vec<String>>,
    roots: &Vec<Vec<String>>,
    generated_data: &Vec<String>,
    backup_prefix: &str,
) -> (counts: bool)
    ensures
        counts == exists|k: int|
            0 <= k < event_paths@.len() && relevant(
                #[trigger] paths(event_paths@)[k],
                paths(roots@),
                texts(generated_data@),
                backup_prefix@,
            ),
{
    let mut at: usize = 0;
    while at < event_paths.len()
        invariant
            at <= event_paths@.len(),
            forall|k: int|
                0 <= k < at ==> !relevant(
                    #[trigger] paths(event_paths@)[k],
                    paths(roots@),
                    texts(generated_data@),
                    backup_prefix@,
                ),
        decreases event_paths@.len() - at,
    {
        if is_relevant(&event_paths[at], roots, generated_data, backup_prefix) {
            proof {
                assert(relevant(paths(event_paths@)[at as int], paths(roots@), texts(generated_data@), backup_prefix@));
            }
            return true;
        }
        at = at + 1;
    }
    false
}

// ---------------------------------------------------------------------------
// What a walk through mapped source meets

/// The directory to watch for something on disk: the thing itself, or the directory
/// that holds it. The root of the file system is held by nothing.
pub open spec fn watched_directory(path: Seq<Seq<char>>, directory: bool) -> Option<Seq<Seq<char>>> {
    if directory {
        Some(path)
    } else if path.len() == 0 || path.last() == "/"@ {
        None
    } else {
        Some(path.drop_last())
    }
}

/// Finds the directory to watch for the target of a link, given by its canonical path;
/// nothing where no directory holds it.
pub fn linked_watch_root(path: &Vec<String>, directory: bool) -> (root: Option<Vec<String>>)
    ensures
        match watched_directory(texts(path@), directory) {
            Some(expected) => root matches Some(root) && texts(root@) == expected,
            None => root is None,
        },
{
    if directory {
        return Some(copy_texts(path));
    }
    if path.len() == 0 {
        return None;
    }
    proof {
        assert(texts(path@).last() == path@[path@.len() - 1]@);
    }
    if path[path.len() - 1].as_str().eq("/") {
        return None;
    }
    let mut above: Vec<String> = copy_texts(path);
    let ghost whole = above@;
    above.pop();
    proof {
        assert(texts(whole) =~= texts(path@));
        assert forall|k: int| 0 <= k < above@.len() implies texts(above@)[k] == texts(path@).drop_last()[k] by {
            assert(texts(whole)[k] == texts(path@)[k]);
        }
        assert(texts(above@) =~= texts(path@).drop_last());
    }
    Some(above)
}

/// What a mapped path asks to be watched.
#[derive(Debug)]
pub enum MappedRoot {
    /// It lies in the project, which is watched anyway.
    Inside,
    Watched(Vec<String>),
    /// No directory holds it.
    NoParent,
}

/// Finds what a mapped path asks to be watched. Both paths are canonical.
pub fn mapped_watch_root(project_root: &Vec<String>, path: &Vec<String>, directory: bool) -> (root: MappedRoot)
    ensures
        if texts(project_root@).is_prefix_of(texts(path@)) {
            root is Inside
        } else {
            match watched_directory(texts(path@), directory) {
                Some(expected) => root matches MappedRoot::Watched(root) && texts(root@) == expected,
                None => root is NoParent,
            }
        },
{
    if path_starts_with(path, project_root) {
        return MappedRoot::Inside;
    }
    match linked_watch_root(path, directory) {
        Some(root) => MappedRoot::Watched(root),
        None => MappedRoot::NoParent,
    }
}

/// Finds the directory that a walk is in already, by its canonical path: to enter it
/// once more would be to walk in a circle.
pub fn find_active_ancestor(entered: &Vec<Vec<String>>, path: &Vec<String>) -> (ancestor: Option<usize>)
    ensures
        match ancestor {
            Some(at) => at < entered@.len() && paths(entered@)[at as int] == texts(path@) && forall|k: int|
                0 <= k < at ==> #[trigger] paths(entered@)[k] != texts(path@),
            None => !paths(entered@).contains(texts(path@)),
        },
{
    let mut at: usize = 0;
    while at < entered.len()
        invariant
            at <= entered@.len(),
            forall|k: int| 0 <= k < at ==> #[trigger] paths(entered@)[k] != texts(path@),
        decreases entered@.len() - at,
    {
        proof {
            assert(paths(entered@)[at as int] == texts(entered@[at as int]@));
        }
        if same_texts(&entered[at], path) {
            return Some(at);
        }
        at = at + 1;
    }
    None
}

} // verus!
