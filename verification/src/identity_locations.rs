//! Where the identities of mapped instances come from.

use crate::evaluation::owns_subtree;
use crate::hashing::{stable_identity, stable_ref};
use crate::names::{identity_ref, is_init_file, is_init_script_file, is_script_source_file, is_source_file, named_identity};
use crate::source_tree::{EntryKind, Source, SourceChild, SourceDirectory, SourceEntry, SourceNode};
use crate::text::{copy_texts, join, joined, separated, texts};
use crate::Ref;
use vstd::prelude::*;

verus! {

/// Where the identity of a mapped instance comes from.
#[derive(Debug)]
pub enum IdentityLocation {
    /// It is written down.
    Persisted,
    /// It follows from a place that a link leads to.
    StableLinked,
    /// It follows from the place of a directory.
    Directory(String),
    /// It follows from the place of a script; the node of the project that maps it,
    /// and the declared path.
    ScriptFile { path: String, route: Option<Vec<String>>, relative: Option<String> },
    /// It follows from the route of a node.
    Inline(Vec<String>),
}

#[verifier::ext_equal]
pub enum LocationView {
    Persisted,
    StableLinked,
    Directory(Seq<char>),
    ScriptFile { path: Seq<char>, route: Option<Seq<Seq<char>>>, relative: Option<Seq<char>> },
    Inline(Seq<Seq<char>>),
}

impl View for IdentityLocation {
    type V = LocationView;

    open spec fn view(&self) -> LocationView {
        match self {
            IdentityLocation::Persisted => LocationView::Persisted,
            IdentityLocation::StableLinked => LocationView::StableLinked,
            IdentityLocation::Directory(path) => LocationView::Directory(path@),
            IdentityLocation::ScriptFile { path, route, relative } => LocationView::ScriptFile {
                path: path@,
                route: match route {
                    Some(route) => Some(texts(route@)),
                    None => None,
                },
                relative: match relative {
                    Some(relative) => Some(relative@),
                    None => None,
                },
            },
            IdentityLocation::Inline(route) => LocationView::Inline(texts(route@)),
        }
    }
}

/// What locations are.
pub open spec fn location_views(list: Seq<IdentityLocation>) -> Seq<LocationView> {
    list.map_values(|location: IdentityLocation| location@)
}

/// A declared identity.
pub open spec fn declares(id: Option<String>, target: Ref) -> bool {
    id matches Some(id) && named_identity(id@) == target
}

/// Where a script at a path gives an identity.
pub open spec fn file_locations(
    path: Seq<char>,
    linked: bool,
    target: Ref,
    route: Option<Seq<Seq<char>>>,
    relative: Option<Seq<char>>,
) -> Seq<LocationView> {
    if stable_identity("source:"@ + path) != target {
        Seq::empty()
    } else if linked {
        seq![LocationView::StableLinked]
    } else {
        seq![LocationView::ScriptFile { path, route, relative }]
    }
}

/// The identity that the metadata of a directory writes down.
pub open spec fn persisted_id(entries: Seq<SourceEntry>) -> Option<Ref>
    decreases entries.len(),
{
    if entries.len() == 0 {
        None
    } else {
        match persisted_id(entries.drop_last()) {
            Some(id) => Some(id),
            None => match entries.last().kind {
                EntryKind::Meta(metadata) => if entries.last().name@ == "meta.json"@ {
                    match metadata.id {
                        Some(id) => Some(named_identity(id@)),
                        None => None,
                    }
                } else {
                    None
                },
                _ => None,
            },
        }
    }
}

/// Where a directory itself gives an identity.
pub open spec fn own_locations(directory: SourceDirectory, linked: bool, target: Ref) -> Seq<LocationView> {
    match persisted_id(directory.entries@) {
        Some(id) => if id == target {
            seq![LocationView::Persisted]
        } else {
            Seq::empty()
        },
        None => if stable_identity("source:"@ + directory.path@) != target {
            Seq::empty()
        } else if linked {
            seq![LocationView::StableLinked]
        } else {
            seq![LocationView::Directory(directory.path@)]
        },
    }
}

/// Where a directory, or something in it, gives an identity.
pub open spec fn directory_locations(directory: SourceDirectory, linked: bool, target: Ref) -> Seq<LocationView>
    decreases directory,
{
    let linked = linked || directory.linked;
    match directory.project {
        Some(project) => nested_locations(
            *project.tree,
            seq!["nested-project:"@ + project.path@],
            linked,
            target,
        ),
        None => own_locations(directory, linked, target) + entry_locations(directory.entries@, linked, target),
    }
}

/// Where the entries of a directory give an identity.
pub open spec fn entry_locations(entries: Seq<SourceEntry>, linked: bool, target: Ref) -> Seq<LocationView>
    decreases entries,
{
    if entries.len() == 0 {
        Seq::empty()
    } else {
        let entry = entries.last();
        let before = entry_locations(entries.drop_last(), linked, target);
        if entry.name@ == "meta.json"@ || is_init_file(entry.name@) {
            before
        } else {
            match entry.kind {
                EntryKind::Directory(directory) => before + directory_locations(
                    directory,
                    linked || entry.linked,
                    target,
                ),
                EntryKind::Other => before,
                _ => if is_source_file(entry.name@) {
                    before + file_locations(entry.path@, linked || entry.linked, target, None, None)
                } else {
                    before
                },
            }
        }
    }
}

/// Where a node of a nested project, or something below it, gives an identity. What
/// is below a node whose path is missing is not there.
pub open spec fn nested_locations(node: SourceNode, route: Seq<Seq<char>>, linked: bool, target: Ref) -> Seq<LocationView>
    decreases node,
{
    let declared = if declares(node.metadata.id, target) {
        seq![LocationView::Persisted]
    } else {
        Seq::empty()
    };
    match node.source {
        Source::Missing(_) => declared,
        Source::Inline => declared + (if node.metadata.id is None && stable_identity(
            "inline:"@ + separated(route, "."@),
        ) == target {
            seq![LocationView::StableLinked]
        } else {
            Seq::empty()
        }) + nested_child_locations(node.children@, route, linked, target),
        Source::File(file) => declared + file_locations(file.path@, linked || file.linked, target, None, None)
            + nested_child_locations(node.children@, route, linked, target),
        Source::Directory(directory) => declared + directory_locations(directory, linked, target)
            + nested_child_locations(node.children@, route, linked, target),
        Source::Other(_) => declared + nested_child_locations(node.children@, route, linked, target),
    }
}

pub open spec fn nested_child_locations(
    children: Seq<SourceChild>,
    route: Seq<Seq<char>>,
    linked: bool,
    target: Ref,
) -> Seq<LocationView>
    decreases children,
{
    if children.len() == 0 {
        Seq::empty()
    } else {
        nested_child_locations(children.drop_last(), route, linked, target) + nested_locations(
            children.last().node,
            route.push(children.last().name@),
            linked,
            target,
        )
    }
}

/// What the declared path of a node is.
pub open spec fn relative_text(node: SourceNode) -> Option<Seq<char>> {
    match node.relative {
        Some(relative) => Some(relative@),
        None => None,
    }
}

/// Where a node of a project, or something below it, gives an identity.
pub open spec fn node_locations(node: SourceNode, route: Seq<Seq<char>>, target: Ref) -> Seq<LocationView>
    decreases node,
{
    let own = if declares(node.metadata.id, target) {
        seq![LocationView::Persisted]
    } else if node.source is Inline && owns_subtree(node) && stable_identity("inline:"@ + separated(route, "."@))
        == target {
        seq![LocationView::Inline(route)]
    } else {
        Seq::empty()
    };
    let mapped = match node.source {
        Source::File(file) => file_locations(file.path@, file.linked, target, Some(route), relative_text(node)),
        Source::Directory(directory) => directory_locations(directory, false, target),
        _ => Seq::empty(),
    };
    own + mapped + child_locations(node.children@, route, target)
}

pub open spec fn child_locations(children: Seq<SourceChild>, route: Seq<Seq<char>>, target: Ref) -> Seq<LocationView>
    decreases children,
{
    if children.len() == 0 {
        Seq::empty()
    } else {
        child_locations(children.drop_last(), route, target) + node_locations(
            children.last().node,
            route.push(children.last().name@),
            target,
        )
    }
}

fn is_declared(id: &Option<String>, target: Ref) -> (is: bool)
    ensures
        is == declares(*id, target),
{
    match id {
        Some(id) => identity_ref(id.as_str()) == target,
        None => false,
    }
}

fn push_location(found: &mut Vec<IdentityLocation>, location: IdentityLocation)
    ensures
        location_views(final(found)@) == location_views(old(found)@).push(location@),
{
    let ghost before = location_views(found@);
    found.push(location);
    proof {
        assert(location_views(found@) =~= before.push(location@));
    }
}

fn find_file(
    path: &String,
    linked: bool,
    target: Ref,
    route: Option<&Vec<String>>,
    relative: Option<&String>,
    found: &mut Vec<IdentityLocation>,
)
    ensures
        location_views(final(found)@) == location_views(old(found)@) + file_locations(
            path@,
            linked,
            target,
            match route {
                Some(route) => Some(texts(route@)),
                None => None,
            },
            match relative {
                Some(relative) => Some(relative@),
                None => None,
            },
        ),
{
    let ghost before = location_views(found@);
    if stable_ref(joined("source:", path.as_str()).as_str()) == target {
        if linked {
            push_location(found, IdentityLocation::StableLinked);
        } else {
            let copied: Option<Vec<String>> = match route {
                Some(route) => Some(copy_texts(route)),
                None => None,
            };
            let declared: Option<String> = match relative {
                Some(relative) => Some(relative.clone()),
                None => None,
            };
            push_location(
                found,
                IdentityLocation::ScriptFile { path: path.clone(), route: copied, relative: declared },
            );
        }
    }
    proof {
        assert(location_views(found@) =~= before + file_locations(
            path@,
            linked,
            target,
            match route {
                Some(route) => Some(texts(route@)),
                None => None,
            },
            match relative {
                Some(relative) => Some(relative@),
                None => None,
            },
        ));
    }
}

fn find_persisted(entries: &Vec<SourceEntry>) -> (id: Option<Ref>)
    ensures
        id == persisted_id(entries@),
{
    let mut found: Option<Ref> = None;
    let mut at: usize = 0;
    proof {
        assert(entries@.take(0) =~= Seq::empty());
    }
    while at < entries.len()
        invariant
            at <= entries@.len(),
            found == persisted_id(entries@.take(at as int)),
        decreases entries@.len() - at,
    {
        proof {
            assert(entries@.take(at + 1).drop_last() =~= entries@.take(at as int));
            assert(entries@.take(at + 1).last() == entries@[at as int]);
        }
        if found.is_none() {
            match &entries[at].kind {
                EntryKind::Meta(metadata) => {
                    if entries[at].name.as_str().eq("meta.json") {
                        match &metadata.id {
                            Some(id) => {
                                found = Some(identity_ref(id.as_str()));
                            },
                            None => {},
                        }
                    }
                },
                _ => {},
            }
        }
        at = at + 1;
    }
    proof {
        assert(entries@.take(entries@.len() as int) =~= entries@);
    }
    found
}

/// Finds where a directory, or something in it, gives an identity.
fn find_directory(directory: &SourceDirectory, linked: bool, target: Ref, found: &mut Vec<IdentityLocation>)
    ensures
        location_views(final(found)@) == location_views(old(found)@) + directory_locations(*directory, linked, target),
    decreases directory,
{
    let ghost given = location_views(found@);
    let linked: bool = linked || directory.linked;
    match &directory.project {
        Some(project) => {
            let mut route: Vec<String> = Vec::new();
            route.push(joined("nested-project:", project.path.as_str()));
            proof {
                assert(texts(route@) =~= seq!["nested-project:"@ + project.path@]);
            }
            find_nested(&*project.tree, &route, linked, target, found);
            return;
        },
        None => {},
    }
    match find_persisted(&directory.entries) {
        Some(id) => {
            if id == target {
                push_location(found, IdentityLocation::Persisted);
            }
        },
        None => {
            if stable_ref(joined("source:", directory.path.as_str()).as_str()) == target {
                if linked {
                    push_location(found, IdentityLocation::StableLinked);
                } else {
                    push_location(found, IdentityLocation::Directory(directory.path.clone()));
                }
            }
        },
    }
    let ghost own = own_locations(*directory, linked, target);
    let ghost entries = directory.entries@;
    proof {
        assert(location_views(found@) =~= given + own);
        assert(entries.take(0) =~= Seq::empty());
        assert(given + own + entry_locations(entries.take(0), linked, target) =~= given + own);
    }
    let mut at: usize = 0;
    while at < directory.entries.len()
        invariant
            at <= directory.entries@.len(),
            entries == directory.entries@,
            location_views(found@) == given + own + entry_locations(entries.take(at as int), linked, target),
        decreases directory.entries@.len() - at,
    {
        let entry: &SourceEntry = &directory.entries[at];
        let ghost before = location_views(found@);
        let ghost listed = entry_locations(entries.take(at as int), linked, target);
        proof {
            assert(entries.take(at + 1).drop_last() =~= entries.take(at as int));
            assert(entries.take(at + 1).last() == *entry);
        }
        let name: &str = entry.name.as_str();
        if !name.eq("meta.json") && !is_init_script_file(name) {
            match &entry.kind {
                EntryKind::Directory(below) => {
                    find_directory(below, linked || entry.linked, target, found);
                    proof {
                        assert(location_views(found@) =~= given + own + (listed + directory_locations(
                            *below,
                            linked || entry.linked,
                            target,
                        )));
                    }
                },
                EntryKind::Other => {},
                _ => {
                    if is_script_source_file(name) {
                        find_file(&entry.path, linked || entry.linked, target, None, None, found);
                        proof {
                            assert(location_views(found@) =~= given + own + (listed + file_locations(
                                entry.path@,
                                linked || entry.linked,
                                target,
                                None,
                                None,
                            )));
                        }
                    }
                },
            }
        }
        at = at + 1;
    }
    proof {
        assert(entries.take(entries.len() as int) =~= entries);
        assert(given + own + entry_locations(entries, linked, target) =~= given + (own + entry_locations(
            entries,
            linked,
            target,
        )));
    }
}

/// Finds where a node of a nested project, or something below it, gives an identity.
fn find_nested(node: &SourceNode, route: &Vec<String>, linked: bool, target: Ref, found: &mut Vec<IdentityLocation>)
    ensures
        location_views(final(found)@) == location_views(old(found)@) + nested_locations(
            *node,
            texts(route@),
            linked,
            target,
        ),
    decreases node,
{
    let ghost given = location_views(found@);
    let ghost here = texts(route@);
    if is_declared(&node.metadata.id, target) {
        push_location(found, IdentityLocation::Persisted);
    }
    let ghost declared = if declares(node.metadata.id, target) {
        seq![LocationView::Persisted]
    } else {
        Seq::empty()
    };
    proof {
        assert(location_views(found@) =~= given + declared);
    }
    match &node.source {
        Source::Missing(_) => {
            return;
        },
        Source::Inline => {
            if node.metadata.id.is_none() && stable_ref(joined("inline:", join(route, ".").as_str()).as_str()) == target {
                push_location(found, IdentityLocation::StableLinked);
            }
        },
        Source::File(file) => {
            find_file(&file.path, linked || file.linked, target, None, None, found);
        },
        Source::Directory(directory) => {
            find_directory(directory, linked, target, found);
        },
        Source::Other(_) => {},
    }
    let ghost own = match &node.source {
        Source::Missing(_) => Seq::empty(),
        Source::Inline => if node.metadata.id is None && stable_identity("inline:"@ + separated(here, "."@)) == target {
            seq![LocationView::StableLinked]
        } else {
            Seq::empty()
        },
        Source::File(file) => file_locations(file.path@, linked || file.linked, target, None, None),
        Source::Directory(directory) => directory_locations(*directory, linked, target),
        Source::Other(_) => Seq::empty(),
    };
    let ghost children = node.children@;
    proof {
        assert(location_views(found@) =~= given + declared + own);
        assert(children.take(0) =~= Seq::empty());
        assert(given + declared + own + nested_child_locations(children.take(0), here, linked, target) =~= given
            + declared + own);
    }
    let mut at: usize = 0;
    while at < node.children.len()
        invariant
            at <= node.children@.len(),
            children == node.children@,
            here == texts(route@),
            location_views(found@) == given + declared + own + nested_child_locations(
                children.take(at as int),
                here,
                linked,
                target,
            ),
        decreases node.children@.len() - at,
    {
        let child: &SourceChild = &node.children[at];
        let ghost listed = nested_child_locations(children.take(at as int), here, linked, target);
        let mut below: Vec<String> = copy_texts(route);
        below.push(child.name.clone());
        proof {
            assert(texts(below@) =~= here.push(child.name@));
            assert(children.take(at + 1).drop_last() =~= children.take(at as int));
            assert(children.take(at + 1).last() == *child);
        }
        find_nested(&child.node, &below, linked, target, found);
        proof {
            assert(location_views(found@) =~= given + declared + own + (listed + nested_locations(
                child.node,
                here.push(child.name@),
                linked,
                target,
            )));
        }
        at = at + 1;
    }
    proof {
        assert(children.take(children.len() as int) =~= children);
        assert(location_views(found@) =~= given + nested_locations(*node, here, linked, target));
    }
}

/// Finds where a node of a project, or something below it, gives an identity.
pub fn find_identity_locations(node: &SourceNode, route: &Vec<String>, target: Ref, found: &mut Vec<IdentityLocation>)
    ensures
        location_views(final(found)@) == location_views(old(found)@) + node_locations(*node, texts(route@), target),
    decreases node,
{
    let ghost given = location_views(found@);
    let ghost here = texts(route@);
    let inline: bool = match &node.source {
        Source::Inline => true,
        _ => false,
    };
    if is_declared(&node.metadata.id, target) {
        push_location(found, IdentityLocation::Persisted);
    } else if inline && crate::evaluation::is_owning(node) && stable_ref(
        joined("inline:", join(route, ".").as_str()).as_str(),
    ) == target {
        push_location(found, IdentityLocation::Inline(copy_texts(route)));
    }
    let ghost own = if declares(node.metadata.id, target) {
        seq![LocationView::Persisted]
    } else if node.source is Inline && owns_subtree(*node) && stable_identity("inline:"@ + separated(here, "."@))
        == target {
        seq![LocationView::Inline(here)]
    } else {
        Seq::empty()
    };
    proof {
        assert(location_views(found@) =~= given + own);
    }
    match &node.source {
        Source::File(file) => {
            let relative: Option<&String> = match &node.relative {
                Some(relative) => Some(relative),
                None => None,
            };
            find_file(&file.path, file.linked, target, Some(route), relative, found);
        },
        Source::Directory(directory) => {
            find_directory(directory, false, target, found);
        },
        _ => {},
    }
    let ghost mapped = match &node.source {
        Source::File(file) => file_locations(file.path@, file.linked, target, Some(here), relative_text(*node)),
        Source::Directory(directory) => directory_locations(*directory, false, target),
        _ => Seq::empty(),
    };
    let ghost children = node.children@;
    proof {
        assert(location_views(found@) =~= given + own + mapped);
        assert(children.take(0) =~= Seq::empty());
        assert(given + own + mapped + child_locations(children.take(0), here, target) =~= given + own + mapped);
    }
    let mut at: usize = 0;
    while at < node.children.len()
        invariant
            at <= node.children@.len(),
            children == node.children@,
            here == texts(route@),
            location_views(found@) == given + own + mapped + child_locations(children.take(at as int), here, target),
        decreases node.children@.len() - at,
    {
        let child: &SourceChild = &node.children[at];
        let ghost listed = child_locations(children.take(at as int), here, target);
        let mut below: Vec<String> = copy_texts(route);
        below.push(child.name.clone());
        proof {
            assert(texts(below@) =~= here.push(child.name@));
            assert(children.take(at + 1).drop_last() =~= children.take(at as int));
            assert(children.take(at + 1).last() == *child);
        }
        find_identity_locations(&child.node, &below, target, found);
        proof {
            assert(location_views(found@) =~= given + own + mapped + (listed + node_locations(
                child.node,
                here.push(child.name@),
                target,
            )));
        }
        at = at + 1;
    }
    proof {
        assert(children.take(children.len() as int) =~= children);
        assert(location_views(found@) =~= given + node_locations(*node, here, target));
    }
}

} // verus!
