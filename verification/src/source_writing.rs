//! The files that are written for a subtree that becomes source.

use crate::extraction::{
    is_plain, is_plain_script, metadata_of, metadata_properties, name_on_disk, representation_name, script_source,
    source_text,
};
use crate::names::{is_script_class, script_like, script_suffix, suffix_of};
use crate::reflection::Reflection;
use crate::snapshot::{lemma_children, nodes, NodeView, Snapshot};
use crate::source_metadata::SourceError;
use crate::text::{copy_texts, joined, texts};
use crate::variant::Properties;
use std::collections::HashSet;
use vstd::prelude::*;

verus! {

broadcast use vstd::std_specs::hash::group_hash_axioms;

/// Something that is written.
#[derive(Debug)]
pub enum SourceWrite<'a> {
    Directory(Vec<String>),
    Text { path: Vec<String>, contents: String },
    /// The metadata of an instance, with its identity where it has to be written down.
    Meta { path: Vec<String>, snapshot: &'a Snapshot, persist_id: bool },
}

#[verifier::ext_equal]
pub enum WriteView {
    Directory(Seq<Seq<char>>),
    Text { path: Seq<Seq<char>>, contents: Seq<char> },
    Meta { path: Seq<Seq<char>>, node: NodeView, persist_id: bool },
}

impl<'a> View for SourceWrite<'a> {
    type V = WriteView;

    open spec fn view(&self) -> WriteView {
        match self {
            SourceWrite::Directory(path) => WriteView::Directory(texts(path@)),
            SourceWrite::Text { path, contents } => WriteView::Text { path: texts(path@), contents: contents@ },
            SourceWrite::Meta { path, snapshot, persist_id } => WriteView::Meta {
                path: texts(path@),
                node: snapshot.node(),
                persist_id: *persist_id,
            },
        }
    }
}

/// What writes are.
pub open spec fn write_views(list: Seq<SourceWrite>) -> Seq<WriteView> {
    list.map_values(|write: SourceWrite| write@)
}

/// An instance whose directory has metadata: an empty folder needs it to be seen.
pub open spec fn has_metadata(node: NodeView, persist_id: bool, reflection: Reflection) -> bool {
    (node.class == "Folder"@ && node.children.len() == 0) || persist_id || !(metadata_of(node, reflection).dom()
        =~= Set::empty())
}

/// What is written for an instance itself.
pub open spec fn own_writes(
    node: NodeView,
    path: Seq<Seq<char>>,
    required: Set<crate::Ref>,
    reflection: Reflection,
) -> Result<Seq<WriteView>, Seq<char>> {
    let meta = if has_metadata(node, required.contains(node.id), reflection) {
        seq![WriteView::Meta { path: path.push("meta.json"@), node, persist_id: required.contains(node.id) }]
    } else {
        Seq::empty()
    };
    if script_like(node.class) {
        match source_text(node) {
            Err(text) => Err(text),
            Ok(source) => Ok(
                seq![
                    WriteView::Directory(path),
                    WriteView::Text { path: path.push("init"@ + suffix_of(node.class)), contents: source },
                ] + meta,
            ),
        }
    } else {
        Ok(seq![WriteView::Directory(path)] + meta)
    }
}

/// What is written for a subtree, at a path.
pub open spec fn writes(
    node: NodeView,
    path: Seq<Seq<char>>,
    required: Set<crate::Ref>,
    reflection: Reflection,
) -> Result<Seq<WriteView>, Seq<char>>
    decreases node,
{
    if is_plain_script(node, required, reflection) {
        match source_text(node) {
            Err(text) => Err(text),
            Ok(source) => Ok(seq![WriteView::Text { path, contents: source }]),
        }
    } else {
        match own_writes(node, path, required, reflection) {
            Err(text) => Err(text),
            Ok(own) => match child_writes(node.children, path, required, reflection) {
                Err(text) => Err(text),
                Ok(below) => Ok(own + below),
            },
        }
    }
}

pub open spec fn child_writes(
    list: Seq<NodeView>,
    path: Seq<Seq<char>>,
    required: Set<crate::Ref>,
    reflection: Reflection,
) -> Result<Seq<WriteView>, Seq<char>>
    decreases list,
{
    if list.len() == 0 {
        Ok(Seq::empty())
    } else {
        match child_writes(list.drop_last(), path, required, reflection) {
            Err(text) => Err(text),
            Ok(before) => match writes(
                list.last(),
                path.push(name_on_disk(list.last(), required, reflection)),
                required,
                reflection,
            ) {
                Err(text) => Err(text),
                Ok(last) => Ok(before + last),
            },
        }
    }
}

proof fn lemma_child_writes_fail(
    list: Seq<NodeView>,
    path: Seq<Seq<char>>,
    required: Set<crate::Ref>,
    reflection: Reflection,
    at: int,
)
    requires
        0 <= at <= list.len(),
        child_writes(list.take(at), path, required, reflection) is Err,
    ensures
        child_writes(list, path, required, reflection) == child_writes(list.take(at), path, required, reflection),
    decreases list.len() - at,
{
    if at == list.len() {
        assert(list.take(at) =~= list);
    } else {
        assert(list.take(at + 1).drop_last() =~= list.take(at));
        lemma_child_writes_fail(list, path, required, reflection, at + 1);
    }
}

fn below(path: &Vec<String>, name: String) -> (longer: Vec<String>)
    ensures
        texts(longer@) == texts(path@).push(name@),
{
    let mut longer: Vec<String> = copy_texts(path);
    longer.push(name);
    proof {
        assert(texts(longer@) =~= texts(path@).push(name@));
    }
    longer
}

fn push_write<'a>(out: &mut Vec<SourceWrite<'a>>, write: SourceWrite<'a>)
    ensures
        write_views(final(out)@) == write_views(old(out)@).push(write@),
{
    let ghost before = write_views(out@);
    out.push(write);
    proof {
        assert(write_views(out@) =~= before.push(write@));
    }
}

fn needs_metadata(snapshot: &Snapshot, persist_id: bool, reflection: &Reflection) -> (needs: bool)
    ensures
        needs == has_metadata(snapshot.node(), persist_id, *reflection),
{
    proof {
        lemma_children(*snapshot);
    }
    if (snapshot.class.as_str().eq("Folder") && snapshot.children.len() == 0) || persist_id {
        return true;
    }
    let metadata: Properties = metadata_properties(snapshot, reflection);
    let count: usize = metadata.len();
    proof {
        crate::text_map::lemma_listed_keys(metadata);
        assert(metadata.deep().dom() =~= metadata@.dom());
        if count == 0 {
            assert(metadata.keys() =~= Seq::empty());
            assert(metadata@.dom() =~= Set::empty());
        } else {
            assert(metadata.keys().contains(metadata.keys()[0]));
            assert(metadata@.dom().contains(metadata.keys()[0]));
        }
    }
    count != 0
}

fn write_own<'a>(
    snapshot: &'a Snapshot,
    path: &Vec<String>,
    required: &HashSet<u128>,
    reflection: &Reflection,
    out: &mut Vec<SourceWrite<'a>>,
) -> (result: Result<(), SourceError>)
    ensures
        match own_writes(snapshot.node(), texts(path@), required@, *reflection) {
            Ok(expected) => result is Ok && write_views(final(out)@) == write_views(old(out)@) + expected,
            Err(text) => result matches Err(error) && error.message@ == text,
        },
{
    let ghost given = write_views(out@);
    push_write(out, SourceWrite::Directory(copy_texts(path)));
    if is_script_class(snapshot.class.as_str()) {
        match script_source(snapshot) {
            Ok(contents) => {
                let file: Vec<String> = below(path, joined("init", script_suffix(snapshot.class.as_str())));
                push_write(out, SourceWrite::Text { path: file, contents });
            },
            Err(error) => {
                return Err(error);
            },
        }
    }
    let persist_id: bool = required.contains(&snapshot.id);
    if needs_metadata(snapshot, persist_id, reflection) {
        let file: Vec<String> = below(path, "meta.json".to_owned());
        push_write(out, SourceWrite::Meta { path: file, snapshot, persist_id });
    }
    proof {
        assert(write_views(out@) =~= given + own_writes(snapshot.node(), texts(path@), required@, *reflection)->Ok_0);
    }
    Ok(())
}

/// Says what is written for a subtree, at a path.
pub fn write_mapped_snapshot<'a>(
    snapshot: &'a Snapshot,
    path: &Vec<String>,
    required: &HashSet<u128>,
    reflection: &Reflection,
    out: &mut Vec<SourceWrite<'a>>,
) -> (result: Result<(), SourceError>)
    ensures
        match writes(snapshot.node(), texts(path@), required@, *reflection) {
            Ok(expected) => result is Ok && write_views(final(out)@) == write_views(old(out)@) + expected,
            Err(text) => result matches Err(error) && error.message@ == text,
        },
    decreases snapshot,
{
    let ghost given = write_views(out@);
    let ghost here = texts(path@);
    proof {
        lemma_children(*snapshot);
    }
    if is_plain(snapshot, required, reflection) {
        return match script_source(snapshot) {
            Ok(contents) => {
                push_write(out, SourceWrite::Text { path: copy_texts(path), contents });
                proof {
                    assert(write_views(out@) =~= given + writes(snapshot.node(), here, required@, *reflection)->Ok_0);
                }
                Ok(())
            },
            Err(error) => Err(error),
        };
    }
    match write_own(snapshot, path, required, reflection, out) {
        Ok(()) => {},
        Err(error) => {
            return Err(error);
        },
    }
    let ghost own = own_writes(snapshot.node(), here, required@, *reflection)->Ok_0;
    let ghost list = snapshot.node().children;
    proof {
        assert(list.take(0) =~= Seq::empty());
        assert(given + own + Seq::<WriteView>::empty() =~= given + own);
    }
    let mut at: usize = 0;
    while at < snapshot.children.len()
        invariant
            at <= snapshot.children@.len(),
            list == nodes(snapshot.children@),
            list == snapshot.node().children,
            here == texts(path@),
            !is_plain_script(snapshot.node(), required@, *reflection),
            own_writes(snapshot.node(), here, required@, *reflection) == Ok::<Seq<WriteView>, Seq<char>>(own),
            child_writes(list.take(at as int), here, required@, *reflection) is Ok,
            write_views(out@) == given + own + child_writes(list.take(at as int), here, required@, *reflection)->Ok_0,
        decreases snapshot.children@.len() - at,
    {
        let child: &'a Snapshot = &snapshot.children[at];
        let file: Vec<String> = below(path, representation_name(child, required, reflection));
        let ghost listed = child_writes(list.take(at as int), here, required@, *reflection)->Ok_0;
        proof {
            assert(list.take(at + 1).drop_last() =~= list.take(at as int));
            assert(list.take(at + 1).last() == child.node());
        }
        match write_mapped_snapshot(child, &file, required, reflection, out) {
            Ok(()) => {
                proof {
                    assert(write_views(out@) =~= given + own + (listed + writes(
                        child.node(),
                        here.push(name_on_disk(child.node(), required@, *reflection)),
                        required@,
                        *reflection,
                    )->Ok_0));
                }
            },
            Err(error) => {
                proof {
                    lemma_child_writes_fail(list, here, required@, *reflection, at + 1);
                }
                return Err(error);
            },
        }
        at = at + 1;
    }
    proof {
        assert(list.take(list.len() as int) =~= list);
        assert(write_views(out@) =~= given + writes(snapshot.node(), here, required@, *reflection)->Ok_0);
    }
    Ok(())
}

} // verus!
