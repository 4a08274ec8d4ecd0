//! What a build takes apart, it can put together: scripts and the structure that holds them.

use crate::builds::{scripts_in, scripts_of, structure_of, structures_of};
use crate::hierarchy::{flat, flat_list, FlatView};
use crate::snapshot::NodeView;
use crate::text::text_bytes;
use crate::variant::VariantView;
use crate::Ref;
use vstd::prelude::*;

verus! {

/// An instance is a script.
pub open spec fn is_script(node: NodeView) -> bool {
    node.class == "Script"@ || node.class == "LocalScript"@ || node.class == "ModuleScript"@
}

/// The source of a script; nothing where it has none.
pub open spec fn has_source(node: NodeView, source: Seq<char>) -> bool {
    if node.properties.dom().contains("Source"@) {
        node.properties["Source"@] == VariantView::String(source)
    } else {
        source.len() == 0
    }
}

/// The script is among those that were found, with its source.
pub open spec fn is_found(scripts: Seq<(Ref, Seq<u8>)>, node: NodeView) -> bool {
    exists|source: Seq<char>| #[trigger]
        has_source(node, source) && scripts.contains((node.id, text_bytes(source)))
}

/// What was found comes from a script of the list.
pub open spec fn comes_from(list: Seq<FlatView>, script: (Ref, Seq<u8>)) -> bool {
    exists|k: int, source: Seq<char>|
        0 <= k < list.len() && is_script((#[trigger] list[k]).node) && list[k].node.id == script.0 && #[trigger] has_source(
            list[k].node,
            source,
        ) && script.1 == text_bytes(source)
}

proof fn lemma_found_more(
    scripts: Seq<(Ref, Seq<u8>)>,
    before: Seq<(Ref, Seq<u8>)>,
    after: Seq<(Ref, Seq<u8>)>,
    node: NodeView,
)
    requires
        is_found(scripts, node),
    ensures
        is_found(before + scripts + after, node),
{
    let source = choose|source: Seq<char>| #[trigger]
        has_source(node, source) && scripts.contains((node.id, text_bytes(source)));
    let script = (node.id, text_bytes(source));
    let at = scripts.index_of(script);
    assert((before + scripts + after)[before.len() + at] == script);
    assert((before + scripts + after).contains(script));
}

proof fn lemma_comes_more(list: Seq<FlatView>, before: Seq<FlatView>, after: Seq<FlatView>, script: (Ref, Seq<u8>))
    requires
        comes_from(list, script),
    ensures
        comes_from(before + list + after, script),
{
    let (k, source) = choose|k: int, source: Seq<char>|
        0 <= k < list.len() && is_script((#[trigger] list[k]).node) && list[k].node.id == script.0 && #[trigger] has_source(
            list[k].node,
            source,
        ) && script.1 == text_bytes(source);
    assert((before + list + after)[before.len() + k] == list[k]);
    assert(has_source((before + list + after)[before.len() + k].node, source));
}

/// Every script and nothing else is found.
spec fn all_found(scripts: Seq<(Ref, Seq<u8>)>, list: Seq<FlatView>) -> bool {
    &&& forall|k: int| 0 <= k < list.len() && is_script((#[trigger] list[k]).node) ==> is_found(scripts, list[k].node)
    &&& forall|k: int| 0 <= k < scripts.len() ==> comes_from(list, #[trigger] scripts[k])
}

proof fn lemma_joined(
    a: Seq<(Ref, Seq<u8>)>,
    b: Seq<(Ref, Seq<u8>)>,
    first: Seq<FlatView>,
    second: Seq<FlatView>,
)
    requires
        all_found(a, first),
        all_found(b, second),
    ensures
        all_found(a + b, first + second),
{
    let none = Seq::<(Ref, Seq<u8>)>::empty();
    let nothing = Seq::<FlatView>::empty();
    assert(none + a + b =~= a + b);
    assert(a + b + none =~= a + b);
    assert(nothing + first + second =~= first + second);
    assert(first + second + nothing =~= first + second);
    let list = first + second;
    assert forall|k: int| 0 <= k < list.len() && is_script((#[trigger] list[k]).node) implies is_found(
        a + b,
        list[k].node,
    ) by {
        if k < first.len() {
            assert(list[k] == first[k]);
            lemma_found_more(a, none, b, list[k].node);
        } else {
            assert(list[k] == second[k - first.len()]);
            lemma_found_more(b, a, none, list[k].node);
        }
    }
    assert forall|k: int| 0 <= k < (a + b).len() implies comes_from(list, #[trigger] (a + b)[k]) by {
        if k < a.len() {
            assert((a + b)[k] == a[k]);
            lemma_comes_more(first, nothing, second, a[k]);
        } else {
            assert((a + b)[k] == b[k - a.len()]);
            lemma_comes_more(second, first, nothing, b[k - a.len()]);
        }
    }
}

proof fn lemma_node(node: NodeView, parent: Option<Ref>)
    requires
        scripts_of(node) is Ok,
    ensures
        all_found(scripts_of(node)->Ok_0, flat(node, parent)),
    decreases node, 1nat,
{
    let below = scripts_in(node.children)->Ok_0;
    lemma_list(node.children, Some(node.id));
    let head = seq![FlatView { parent, node }];
    let own = if is_script(node) {
        seq![(node.id, text_bytes(crate::extraction::source_text(node)->Ok_0))]
    } else {
        Seq::empty()
    };
    assert(scripts_of(node)->Ok_0 == own + below);
    assert(all_found(own, head)) by {
        if is_script(node) {
            let source = crate::extraction::source_text(node)->Ok_0;
            assert(has_source(node, source)) by {
                if !node.properties.dom().contains("Source"@) {
                    assert(source.len() == 0);
                }
            }
            assert(own[0] == (node.id, text_bytes(source)));
            assert(own.contains((node.id, text_bytes(source))));
            assert(is_found(own, node));
            assert(has_source(head[0].node, source));
            assert(comes_from(head, own[0]));
        }
    }
    lemma_joined(own, below, head, flat_list(node.children, Some(node.id)));
}

proof fn lemma_list(list: Seq<NodeView>, parent: Option<Ref>)
    requires
        scripts_in(list) is Ok,
    ensures
        all_found(scripts_in(list)->Ok_0, flat_list(list, parent)),
    decreases list, 0nat,
{
    if list.len() > 0 {
        lemma_list(list.drop_last(), parent);
        lemma_node(list.last(), parent);
        lemma_joined(
            scripts_in(list.drop_last())->Ok_0,
            scripts_of(list.last())->Ok_0,
            flat_list(list.drop_last(), parent),
            flat(list.last(), parent),
        );
    }
}

/// A build finds every script of what is mapped, with its source, and nothing else.
pub proof fn law_builds_find_every_script(node: NodeView)
    requires
        scripts_of(node) is Ok,
    ensures
        forall|k: int|
            0 <= k < flat(node, None).len() && is_script((#[trigger] flat(node, None)[k]).node) ==> is_found(
                scripts_of(node)->Ok_0,
                flat(node, None)[k].node,
            ),
        forall|k: int|
            0 <= k < scripts_of(node)->Ok_0.len() ==> comes_from(
                flat(node, None),
                #[trigger] scripts_of(node)->Ok_0[k],
            ),
{
    lemma_node(node, None);
}

/// One hierarchy is another without the sources of its scripts.
pub open spec fn lacks_sources_only(full: NodeView, bare: NodeView) -> bool
    decreases full,
{
    &&& bare.id == full.id
    &&& bare.name == full.name
    &&& bare.raw_name == full.raw_name
    &&& bare.class == full.class
    &&& forall|name: Seq<char>| #[trigger]
        bare.properties.dom().contains(name) <==> full.properties.dom().contains(name) && !(is_script(full) && name
            == "Source"@)
    &&& forall|name: Seq<char>| #[trigger]
        bare.properties.dom().contains(name) ==> bare.properties[name] == full.properties[name]
    &&& bare.children.len() == full.children.len()
    &&& forall|at: int|
        #![trigger full.children[at]]
        #![trigger bare.children[at]]
        0 <= at < full.children.len() ==> lacks_sources_only(full.children[at], bare.children[at])
}

proof fn lemma_structures(list: Seq<NodeView>)
    ensures
        structures_of(list).len() == list.len(),
        forall|k: int| 0 <= k < list.len() ==> #[trigger] structures_of(list)[k] == structure_of(list[k]),
    decreases list.len(),
{
    if list.len() > 0 {
        let fewer = list.drop_last();
        lemma_structures(fewer);
        assert forall|k: int| 0 <= k < list.len() implies #[trigger] structures_of(list)[k] == structure_of(list[k]) by {
            if k < fewer.len() {
                assert(structures_of(fewer)[k] == structure_of(fewer[k]));
            }
        }
    }
}

/// The structure of a build is the mapped source without the sources of its scripts, and
/// lacks nothing else.
pub proof fn law_structure_lacks_sources_only(node: NodeView)
    ensures
        lacks_sources_only(node, structure_of(node)),
    decreases node,
{
    let bare = structure_of(node);
    lemma_structures(node.children);
    assert forall|at: int|
        #![trigger node.children[at]]
        #![trigger bare.children[at]]
        0 <= at < node.children.len() implies lacks_sources_only(node.children[at], bare.children[at]) by {
        assert(structures_of(node.children)[at] == structure_of(node.children[at]));
        law_structure_lacks_sources_only(node.children[at]);
    }
}

} // verus!
