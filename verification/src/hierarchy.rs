//! Hierarchies as flat pre-order lists.

use crate::snapshot::{lemma_children, nodes, NodeView, Snapshot};
use crate::Ref;
use std::collections::{HashMap, HashSet};
use vstd::prelude::*;

verus! {

broadcast use vstd::std_specs::hash::group_hash_axioms;

/// A node of a hierarchy with the identity of its parent.
pub struct FlatNode<'a> {
    pub parent: Option<Ref>,
    pub snapshot: &'a Snapshot,
}

#[verifier::ext_equal]
pub struct FlatView {
    pub parent: Option<Ref>,
    pub node: NodeView,
}

impl<'a> View for FlatNode<'a> {
    type V = FlatView;

    open spec fn view(&self) -> FlatView {
        FlatView { parent: self.parent, node: self.snapshot.node() }
    }
}

/// What flat nodes stand for.
pub open spec fn flat_views(list: Seq<FlatNode>) -> Seq<FlatView> {
    list.map_values(|flat: FlatNode| flat@)
}

/// A node followed by everything below it, each node before its children.
pub open spec fn flat(node: NodeView, parent: Option<Ref>) -> Seq<FlatView>
    decreases node,
{
    seq![FlatView { parent, node }] + flat_list(node.children, Some(node.id))
}

/// Siblings, each followed by everything below it.
pub open spec fn flat_list(list: Seq<NodeView>, parent: Option<Ref>) -> Seq<FlatView>
    decreases list,
{
    if list.len() == 0 {
        Seq::empty()
    } else {
        flat_list(list.drop_last(), parent) + flat(list.last(), parent)
    }
}

/// The identities of flat nodes.
pub open spec fn flat_ids(list: Seq<FlatView>) -> Seq<Ref> {
    list.map_values(|flat: FlatView| flat.node.id)
}

/// Every identity of a hierarchy.
pub open spec fn ids(node: NodeView) -> Set<Ref> {
    flat_ids(flat(node, None)).to_set()
}

/// The last position at which an identity occurs.
pub open spec fn position(list: Seq<FlatView>, id: Ref) -> Option<int>
    decreases list.len(),
{
    if list.len() == 0 {
        None
    } else if list.last().node.id == id {
        Some(list.len() - 1)
    } else {
        position(list.drop_last(), id)
    }
}

pub proof fn lemma_position(list: Seq<FlatView>, id: Ref)
    ensures
        match position(list, id) {
            Some(at) => 0 <= at < list.len() && list[at].node.id == id && forall|later: int|
                at < later < list.len() ==> (#[trigger] list[later]).node.id != id,
            None => forall|at: int| 0 <= at < list.len() ==> (#[trigger] list[at]).node.id != id,
        },
    decreases list.len(),
{
    if list.len() > 0 {
        lemma_position(list.drop_last(), id);
        if list.last().node.id != id {
            match position(list.drop_last(), id) {
                Some(at) => {
                    assert(list[at] == list.drop_last()[at]);
                    assert forall|later: int| at < later < list.len() implies (#[trigger] list[later]).node.id
                        != id by {
                        if later < list.len() - 1 {
                            assert(list.drop_last()[later].node.id != id);
                        }
                    }
                },
                None => {
                    assert forall|at: int| 0 <= at < list.len() implies (#[trigger] list[at]).node.id != id by {
                        if at < list.len() - 1 {
                            assert(list.drop_last()[at].node.id != id);
                        }
                    }
                },
            }
        }
    }
}

pub proof fn lemma_position_take(list: Seq<FlatView>, at: int, id: Ref)
    requires
        0 <= at < list.len(),
    ensures
        position(list.take(at + 1), id) == (if list[at].node.id == id {
            Some(at)
        } else {
            position(list.take(at), id)
        }),
{
    assert(list.take(at + 1).drop_last() =~= list.take(at));
}

/// Appends a node and everything below it.
pub fn flatten_into<'a>(snapshot: &'a Snapshot, parent: Option<Ref>, out: &mut Vec<FlatNode<'a>>)
    ensures
        flat_views(final(out)@) == flat_views(old(out)@) + flat(snapshot.node(), parent),
    decreases snapshot,
{
    out.push(FlatNode { parent, snapshot });
    let ghost head = seq![FlatView { parent, node: snapshot.node() }];
    let ghost children = snapshot.node().children;
    proof {
        lemma_children(*snapshot);
        assert(flat_views(out@) =~= flat_views(old(out)@) + head);
        assert(children.take(0) =~= Seq::empty());
    }
    let mut at: usize = 0;
    while at < snapshot.children.len()
        invariant
            at <= snapshot.children@.len(),
            children == snapshot.node().children,
            children.len() == snapshot.children@.len(),
            forall|k: int| 0 <= k < children.len() ==> #[trigger] children[k] == snapshot.children@[k].node(),
            flat_views(out@) == flat_views(old(out)@) + head + flat_list(
                children.take(at as int),
                Some(snapshot.id),
            ),
        decreases snapshot.children@.len() - at,
    {
        let ghost before = flat_views(out@);
        flatten_into(&snapshot.children[at], Some(snapshot.id), out);
        proof {
            let next = children.take(at + 1);
            assert(next.drop_last() =~= children.take(at as int));
            assert(next.last() == children[at as int]);
            assert(flat_views(out@) =~= flat_views(old(out)@) + head + flat_list(next, Some(snapshot.id)));
        }
        at = at + 1;
    }
    proof {
        assert(children.take(children.len() as int) =~= children);
        assert(flat_views(out@) =~= flat_views(old(out)@) + flat(snapshot.node(), parent));
    }
}

/// A hierarchy as a flat list.
pub fn flatten_snapshot<'a>(root: &'a Snapshot) -> (list: Vec<FlatNode<'a>>)
    ensures
        flat_views(list@) == flat(root.node(), None),
        list@.len() == flat(root.node(), None).len(),
{
    let mut list: Vec<FlatNode<'a>> = Vec::new();
    flatten_into(root, None, &mut list);
    proof {
        assert(flat_views(Seq::<FlatNode>::empty()) =~= Seq::empty());
        assert(flat_views(list@) =~= flat(root.node(), None));
    }
    list
}

/// The last position of each identity.
pub open spec fn indexes(index: Map<Ref, usize>, list: Seq<FlatView>) -> bool {
    forall|id: Ref| #[trigger]
        index.dom().contains(id) == (position(list, id) is Some) && (index.dom().contains(id)
            ==> position(list, id) == Some(index[id] as int))
}

/// The last position of each identity.
pub fn index_flat(list: &Vec<FlatNode>) -> (index: HashMap<u128, usize>)
    ensures
        indexes(index@, flat_views(list@)),
{
    let mut index: HashMap<u128, usize> = HashMap::new();
    let mut at: usize = 0;
    while at < list.len()
        invariant
            at <= list@.len(),
            indexes(index@, flat_views(list@).take(at as int)),
        decreases list@.len() - at,
    {
        let ghost before = index@;
        index.insert(list[at].snapshot.id, at);
        proof {
            let views = flat_views(list@);
            assert forall|id: Ref| #[trigger]
                index@.dom().contains(id) == (position(views.take(at + 1), id) is Some) && (
            index@.dom().contains(id) ==> position(views.take(at + 1), id) == Some(index@[id] as int)) by {
                lemma_position_take(views, at as int, id);
                assert(before.dom().contains(id) == (position(views.take(at as int), id) is Some));
            }
        }
        at = at + 1;
    }
    proof {
        assert(flat_views(list@).take(list@.len() as int) =~= flat_views(list@));
    }
    index
}

/// The identities of flat nodes as a set.
pub fn flat_id_set(list: &Vec<FlatNode>) -> (set: HashSet<u128>)
    ensures
        set@ == flat_ids(flat_views(list@)).to_set(),
{
    let mut set: HashSet<u128> = HashSet::new();
    let mut at: usize = 0;
    proof {
        assert(flat_ids(flat_views(list@)).take(0).to_set() =~= Set::empty());
    }
    while at < list.len()
        invariant
            at <= list@.len(),
            set@ == flat_ids(flat_views(list@)).take(at as int).to_set(),
        decreases list@.len() - at,
    {
        set.insert(list[at].snapshot.id);
        proof {
            let all = flat_ids(flat_views(list@));
            lemma_taken_set(all, at as int);
        }
        at = at + 1;
    }
    proof {
        let all = flat_ids(flat_views(list@));
        assert(all.take(all.len() as int) =~= all);
    }
    set
}

pub proof fn lemma_taken_set<A>(list: Seq<A>, at: int)
    requires
        0 <= at < list.len(),
    ensures
        list.take(at + 1).to_set() == list.take(at).to_set().insert(list[at]),
{
    let done = list.take(at);
    let next = list.take(at + 1);
    assert forall|other: A| next.to_set().contains(other) <==> done.to_set().insert(list[at]).contains(other) by {
        if next.contains(other) {
            let k = next.index_of(other);
            if k < at {
                assert(done[k] == other);
            }
        }
        if done.contains(other) {
            let k = done.index_of(other);
            assert(next[k] == other);
        }
        assert(next[at] == list[at]);
    }
    assert(next.to_set() =~= done.to_set().insert(list[at]));
}

/// The positions below `len` that are kept, in order.
pub open spec fn positions(len: nat, keep: spec_fn(int) -> bool) -> Seq<int>
    decreases len,
{
    if len == 0 {
        Seq::empty()
    } else if keep(len - 1) {
        positions((len - 1) as nat, keep).push(len - 1)
    } else {
        positions((len - 1) as nat, keep)
    }
}

pub proof fn lemma_positions(len: nat, keep: spec_fn(int) -> bool)
    ensures
        positions(len, keep).len() <= len,
        forall|k: int|
            0 <= k < positions(len, keep).len() ==> 0 <= #[trigger] positions(len, keep)[k] < len && keep(
                positions(len, keep)[k],
            ),
        forall|i: int, j: int|
            0 <= i < j < positions(len, keep).len() ==> #[trigger] positions(len, keep)[i]
                < #[trigger] positions(len, keep)[j],
        forall|at: int| 0 <= at < len && keep(at) ==> #[trigger] positions(len, keep).contains(at),
    decreases len,
{
    if len > 0 {
        let before = positions((len - 1) as nat, keep);
        lemma_positions((len - 1) as nat, keep);
        let all = positions(len, keep);
        assert forall|at: int| 0 <= at < len && keep(at) implies #[trigger] all.contains(at) by {
            if at < len - 1 {
                assert(before.contains(at));
                let k = before.index_of(at);
                assert(all[k] == at);
            } else {
                assert(all[all.len() - 1] == at);
            }
        }
    }
}

/// The members of a set, in no particular order.
pub fn set_members(set: &HashSet<u128>) -> (members: Vec<Ref>)
    ensures
        members@.to_set() == set@,
{
    let mut members: Vec<Ref> = Vec::new();
    for id in iter: set.iter()
        invariant
            iter.seq().unref().to_set() == set@,
            members@ == iter.seq().unref().take(iter.index()),
            iter.index() == iter.seq().len() ==> members@ == iter.seq().unref(),
    {
        members.push(*id);
        assert(iter.seq().unref().take(iter.index() + 1) =~= iter.seq().unref().take(iter.index()).push(*id));
        assert(iter.index() + 1 == iter.seq().len() ==> iter.seq().unref().take(iter.index() + 1)
            =~= iter.seq().unref());
    }
    members
}

} // verus!
