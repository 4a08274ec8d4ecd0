//! Mapped source on disk, and the instances that it stands for.

use crate::hashing::{stable_identity, stable_ref};
use crate::hierarchy::flat;
use crate::names::{
    filesystem_like, identity_ref, is_filesystem_class, is_init_file, is_init_script_file, is_script_source_file, is_source_file,
    named_identity, named_script, refused_name, script_class, script_class_of, script_name, validate_instance_name,
    NameError,
};
use crate::reflection::Reflection;
use crate::snapshot::{lemma_children, nodes, NodeView, Snapshot};
use crate::source_metadata::{
    apply_metadata, apply_values, child_place, find_child, lemma_accepted_classes, merge_snapshots, merged, refused,
    refused_siblings, refused_subtree, validate_filesystem_subtree, validate_sibling_names, valued, with_metadata,
    Identities, Metadata, SourceError,
};
use crate::text::{copy_texts, ends_with, is_before, join, joined, separated, text_before, texts};
use crate::text_map::{Plain, TextMap};
use crate::variant::{Properties, Variant, VariantView};
use vstd::prelude::*;

verus! {

/// A script or module on disk, read.
#[derive(Debug)]
pub struct SourceFile {
    pub path: String,
    pub file_name: String,
    pub source: String,
    /// A symbolic link leads to it.
    pub linked: bool,
}

/// What stands at the path of a mapped node.
#[derive(Debug)]
pub enum Source {
    /// The node has no path.
    Inline,
    /// Nothing is there.
    Missing(String),
    File(SourceFile),
    Directory(SourceDirectory),
    /// Neither a file nor a directory.
    Other(String),
}

/// A node of a project, with what its path leads to.
#[derive(Debug)]
pub struct SourceNode {
    pub class_name: Option<String>,
    pub metadata: Metadata,
    /// The declared path.
    pub relative: Option<String>,
    /// Whether the path may be missing. Only a node of a nested project may say so.
    pub optional: bool,
    pub source: Source,
    pub children: Vec<SourceChild>,
}

/// A node under its name.
#[derive(Debug)]
pub struct SourceChild {
    pub name: String,
    pub node: SourceNode,
}

/// A directory on disk. What the service generates is not listed.
#[derive(Debug)]
pub struct SourceDirectory {
    pub path: String,
    /// A symbolic link leads to it.
    pub linked: bool,
    /// A project that is nested in it, with its path.
    pub project: Option<NestedProject>,
    /// What it holds, in the order of the names.
    pub entries: Vec<SourceEntry>,
}

/// A project that is nested in a directory.
#[derive(Debug)]
pub struct NestedProject {
    pub path: String,
    pub tree: Box<SourceNode>,
}

/// What stands in a directory under a name.
#[derive(Debug)]
pub struct SourceEntry {
    pub name: String,
    pub path: String,
    /// A symbolic link.
    pub linked: bool,
    pub kind: EntryKind,
}

/// What an entry is.
#[derive(Debug)]
pub enum EntryKind {
    /// A file of metadata.
    Meta(Metadata),
    /// A file, read.
    Text(String),
    /// A file that nobody reads.
    Unread,
    Directory(SourceDirectory),
    Other,
}

impl EntryKind {
    pub open spec fn is_file(self) -> bool {
        self is Meta || self is Text || self is Unread
    }
}

// ---------------------------------------------------------------------------
// Order

/// An entry put into an ordered list.
pub open spec fn entry_placed(list: Seq<SourceEntry>, entry: SourceEntry) -> Seq<SourceEntry>
    decreases list.len(),
{
    if list.len() > 0 && text_before(entry.name@, list.last().name@) {
        entry_placed(list.drop_last(), entry).push(list.last())
    } else {
        list.push(entry)
    }
}

/// Entries in the order of their names.
pub open spec fn ordered_entries(list: Seq<SourceEntry>) -> Seq<SourceEntry>
    decreases list.len(),
{
    if list.len() == 0 {
        Seq::empty()
    } else {
        entry_placed(ordered_entries(list.drop_last()), list.last())
    }
}

proof fn lemma_entry_placed(list: Seq<SourceEntry>, entry: SourceEntry, at: int)
    requires
        0 <= at <= list.len(),
        forall|k: int| at <= k < list.len() ==> text_before(entry.name@, (#[trigger] list[k]).name@),
        at > 0 ==> !text_before(entry.name@, list[at - 1].name@),
    ensures
        entry_placed(list, entry) == list.insert(at, entry),
    decreases list.len(),
{
    if at == list.len() {
        assert(list.push(entry) =~= list.insert(at, entry));
    } else {
        let rest = list.drop_last();
        assert forall|k: int| at <= k < rest.len() implies text_before(entry.name@, (#[trigger] rest[k]).name@) by {
            assert(list[k] == rest[k]);
        }
        assert(text_before(entry.name@, list[list.len() - 1].name@));
        lemma_entry_placed(rest, entry, at);
        assert(rest.insert(at, entry).push(list.last()) =~= list.insert(at, entry));
    }
}

/// Puts entries into the order of their names.
pub fn sort_entries(list: Vec<SourceEntry>) -> (sorted: Vec<SourceEntry>)
    ensures
        sorted@ == ordered_entries(list@),
{
    let ghost all = list@;
    let mut sorted: Vec<SourceEntry> = Vec::new();
    proof {
        assert(all.take(0) =~= Seq::empty());
    }
    for entry in iter: list
        invariant
            iter.seq() == all,
            sorted@ == ordered_entries(all.take(iter.index() as int)),
    {
        assert(all.take(iter.index() + 1).drop_last() =~= all.take(iter.index() as int));
        assert(all.take(iter.index() + 1).last() == entry);
        let ghost before = sorted@;
        let mut at: usize = sorted.len();
        while at > 0 && is_before(entry.name.as_str(), sorted[at - 1].name.as_str())
            invariant
                before == sorted@,
                at <= sorted@.len(),
                forall|k: int| at <= k < before.len() ==> text_before(entry.name@, (#[trigger] before[k]).name@),
            decreases at,
        {
            at = at - 1;
        }
        proof {
            lemma_entry_placed(before, entry, at as int);
        }
        sorted.insert(at, entry);
    }
    assert(all.take(all.len() as int) =~= all);
    sorted
}

// ---------------------------------------------------------------------------
// Scripts

/// The properties of a script.
pub open spec fn source_property(source: Seq<char>) -> Map<Seq<char>, VariantView> {
    Map::empty().insert("Source"@, VariantView::String(source))
}

/// An instance without anything below it.
pub open spec fn plain_node(
    id: crate::Ref,
    name: Seq<char>,
    class: Seq<char>,
    properties: Map<Seq<char>, VariantView>,
) -> NodeView {
    NodeView { id, name, raw_name: None, class, properties, children: Seq::empty() }
}

/// The instance that a script on disk stands for.
pub open spec fn script_node(path: Seq<char>, file_name: Seq<char>, source: Seq<char>, name: Seq<char>) -> Result<
    NodeView,
    Seq<char>,
> {
    match script_class_of(file_name) {
        Some(class) => Ok(plain_node(stable_identity("source:"@ + path), name, class, source_property(source))),
        None => Err("unsupported mapped source file "@ + file_name),
    }
}

fn make_node(id: crate::Ref, name: &str, class: &str, source: Option<&String>) -> (snapshot: Snapshot)
    ensures
        snapshot.node() == plain_node(
            id,
            name@,
            class@,
            match source {
                Some(source) => source_property(source@),
                None => Map::empty(),
            },
        ),
{
    let mut properties: Properties = TextMap::new();
    proof {
        assert(properties.deep() =~= Map::empty());
    }
    match source {
        Some(source) => {
            properties.insert("Source".to_owned(), Variant::String(source.clone()));
            proof {
                assert(properties.deep() =~= source_property(source@));
            }
        },
        None => {},
    }
    let snapshot: Snapshot = Snapshot {
        id,
        name: name.to_owned(),
        raw_name: None,
        class: class.to_owned(),
        properties,
        children: Vec::new(),
    };
    proof {
        assert(snapshot.node().children =~= Seq::empty());
    }
    snapshot
}

/// The instance that a script on disk stands for.
pub fn read_script_file(path: &str, file_name: &str, source: &String, name: &str) -> (result: Result<
    Snapshot,
    SourceError,
>)
    ensures
        match script_node(path@, file_name@, source@, name@) {
            Ok(expected) => result matches Ok(found) && found.node() == expected,
            Err(text) => result matches Err(error) && error.message@ == text,
        },
{
    match script_class(file_name) {
        Ok(class) => Ok(make_node(stable_ref(joined("source:", path).as_str()), name, class, Some(source))),
        Err(error) => Err(refused(error.message())),
    }
}

// ---------------------------------------------------------------------------
// What directories and nodes stand for

/// What was found in a directory so far.
#[verifier::ext_equal]
pub struct Found {
    /// The file that makes the directory a script, and its text.
    pub init: Option<(Seq<char>, Seq<char>)>,
    pub metadata: Option<Metadata>,
    pub children: Seq<NodeView>,
    /// Something that a checkout carries: bare directories are no source.
    pub portable: bool,
}

/// The class of a directory, by the file that makes it a script.
pub open spec fn init_class(init: Option<(Seq<char>, Seq<char>)>) -> Seq<char> {
    match init {
        None => "Folder"@,
        Some((file, _)) => if file == "init.server.luau"@ || file == "init.server.lua"@ {
            "Script"@
        } else if file == "init.client.luau"@ || file == "init.client.lua"@ {
            "LocalScript"@
        } else {
            "ModuleScript"@
        },
    }
}

/// A directory with its metadata taken over.
pub open spec fn described(node: NodeView, metadata: Option<Metadata>, reflection: Reflection) -> Result<
    NodeView,
    Seq<char>,
> {
    match metadata {
        None => Ok(node),
        Some(metadata) => {
            let named = match metadata.id {
                Some(id) => NodeView { id: named_identity(id@), ..node },
                None => node,
            };
            valued(named, metadata, node.class, reflection)
        },
    }
}

/// What the entries of a directory come to.
pub open spec fn entries_found(entries: Seq<SourceEntry>, path: Seq<char>, reflection: Reflection) -> Result<
    Found,
    Seq<char>,
>
    decreases entries,
{
    if entries.len() == 0 {
        Ok(Found { init: None, metadata: None, children: Seq::empty(), portable: false })
    } else {
        match entries_found(entries.drop_last(), path, reflection) {
            Err(text) => Err(text),
            Ok(found) => {
                let entry = entries.last();
                let name = entry.name@;
                if name == "meta.json"@ && entry.kind.is_file() {
                    match entry.kind {
                        EntryKind::Meta(metadata) => if found.metadata is Some {
                            Err("mapped directory contains multiple meta.json files"@)
                        } else {
                            Ok(Found { metadata: Some(metadata), portable: true, ..found })
                        },
                        _ => Err("mapped source file was not read: "@ + entry.path@),
                    }
                } else if entry.kind.is_file() && is_init_file(name) {
                    if found.init is Some {
                        Err("mapped directory contains multiple init script variants: "@ + path)
                    } else {
                        match entry.kind {
                            EntryKind::Text(text) => Ok(Found { init: Some((name, text@)), portable: true, ..found }),
                            _ => Err("mapped source file was not read: "@ + entry.path@),
                        }
                    }
                } else {
                    match entry.kind {
                        EntryKind::Directory(directory) => if refused_name(name) is Some {
                            Err(refused_name(name)->0)
                        } else {
                            match directory_node(directory, name, reflection) {
                                Err(text) => Err(text),
                                Ok((child, portable)) => if portable {
                                    Ok(Found { children: found.children.push(child), portable: true, ..found })
                                } else {
                                    Ok(found)
                                },
                            }
                        },
                        EntryKind::Other => Err("unsupported mapped source entry "@ + entry.path@),
                        _ => if ".meta.json"@.is_suffix_of(name) {
                            Err(
                                "adjacent per-script metadata is unsupported; use directory meta.json: "@
                                    + entry.path@,
                            )
                        } else if is_source_file(name) {
                            match named_script(name, 0) {
                                None => Err(NameError::UnsupportedForm(entry.name).text()),
                                Some(script) => if script.len() == 0 {
                                    Err(NameError::NoScriptName(entry.name).text())
                                } else if refused_name(script) is Some {
                                    Err(refused_name(script)->0)
                                } else {
                                    match entry.kind {
                                        EntryKind::Text(text) => match script_node(entry.path@, name, text@, script) {
                                            Ok(child) => Ok(
                                                Found { children: found.children.push(child), portable: true, ..found },
                                            ),
                                            Err(text) => Err(text),
                                        },
                                        _ => Err("mapped source file was not read: "@ + entry.path@),
                                    }
                                },
                            }
                        } else {
                            Ok(found)
                        },
                    }
                }
            },
        }
    }
}

/// The instance that a directory stands for, and whether a checkout carries it.
pub open spec fn directory_node(directory: SourceDirectory, name: Seq<char>, reflection: Reflection) -> Result<
    (NodeView, bool),
    Seq<char>,
>
    decreases directory,
{
    if refused_name(name) is Some {
        Err(refused_name(name)->0)
    } else {
        match directory.project {
            Some(project) => match evaluated(
                name,
                *project.tree,
                seq!["nested-project:"@ + project.path@],
                Map::empty(),
                true,
                reflection,
            ) {
                Err(text) => Err(text),
                Ok((None, _)) => Err("nested Rojo project root did not resolve: "@ + project.path@),
                Ok((Some(node), _)) => Ok((node, true)),
            },
            None => match entries_found(directory.entries@, directory.path@, reflection) {
                Err(text) => Err(text),
                Ok(found) => match refused_siblings(found.children, directory.path@) {
                    Some(text) => Err(text),
                    None => {
                        let bare = NodeView {
                            id: stable_identity("source:"@ + directory.path@),
                            name,
                            raw_name: None,
                            class: init_class(found.init),
                            properties: match found.init {
                                Some((_, source)) => source_property(source),
                                None => Map::empty(),
                            },
                            children: found.children,
                        };
                        match described(bare, found.metadata, reflection) {
                            Ok(node) => Ok((node, found.portable)),
                            Err(text) => Err(text),
                        }
                    },
                },
            },
        }
    }
}

/// A node with its declared class, or why it may not have it.
pub open spec fn classed(
    found: NodeView,
    class_name: Option<String>,
    inline: bool,
    name: Seq<char>,
    nested: bool,
) -> Result<NodeView, Seq<char>> {
    match class_name {
        None => Ok(found),
        Some(class) => if !filesystem_like(class@) {
            Err("unsupported filesystem-owned class "@ + class@)
        } else if !inline && found.class != class@ {
            Err(
                "$className "@ + class@ + (if nested {
                    " conflicts with inferred nested Rojo class "@
                } else {
                    " conflicts with inferred mapped class "@
                }) + found.class + " at "@ + name,
            )
        } else {
            Ok(NodeView { class: class@, ..found })
        },
    }
}

/// The instance that a node of a project stands for, and the identities that were
/// declared so far: what its path leads to, what is declared of it, and what its
/// children contribute.
pub open spec fn evaluated(
    name: Seq<char>,
    node: SourceNode,
    route: Seq<Seq<char>>,
    ids: Map<Seq<char>, Seq<char>>,
    nested: bool,
    reflection: Reflection,
) -> Result<(Option<NodeView>, Map<Seq<char>, Seq<char>>), Seq<char>>
    decreases node,
{
    let start = match node.source {
        Source::Directory(directory) => match directory_node(directory, name, reflection) {
            Ok((found, _)) => Ok(Some(found)),
            Err(text) => Err(text),
        },
        _ => plain_source(name, node, route, nested),
    };
    match start {
        Err(text) => Err(text),
        Ok(None) => Ok((None, ids)),
        Ok(Some(found)) => match classed(found, node.class_name, node.source is Inline, name, nested) {
            Err(text) => Err(text),
            Ok(found) => match with_metadata(found, node.metadata, found.class, reflection, ids) {
                Err(text) => Err(text),
                Ok((found, ids)) => match contributed(found, node.children@, route, ids, nested, reflection) {
                    Err(text) => Err(text),
                    Ok((found, ids)) => match refused_subtree(found, name) {
                        Some(text) => Err(text),
                        None => Ok((Some(found), ids)),
                    },
                },
            },
        },
    }
}

/// What the path of a node that is no directory leads to.
pub open spec fn plain_source(name: Seq<char>, node: SourceNode, route: Seq<Seq<char>>, nested: bool) -> Result<
    Option<NodeView>,
    Seq<char>,
> {
    match node.source {
        Source::Missing(path) => if !nested {
            Err("required mapped path is missing: "@ + path@)
        } else if !node.optional {
            Err("required nested Rojo path is missing: "@ + path@)
        } else {
            Ok(None)
        },
        Source::Inline => Ok(
            Some(
                plain_node(
                    stable_identity("inline:"@ + separated(route, "."@)),
                    name,
                    match node.class_name {
                        Some(class) => class@,
                        None => "Folder"@,
                    },
                    Map::empty(),
                ),
            ),
        ),
        Source::File(file) => match script_node(file.path@, file.file_name@, file.source@, name) {
            Ok(found) => Ok(Some(found)),
            Err(text) => Err(text),
        },
        Source::Other(path) => if nested {
            Err("nested Rojo path is neither a file nor directory: "@ + path@)
        } else {
            Err("mapped path is neither a file nor directory: "@ + path@)
        },
        Source::Directory(_) => Ok(None),
    }
}

/// A contribution taken into an instance: merged with the child of its name, whose
/// identity stands unless the contribution declares one.
pub open spec fn joined_child(
    base: NodeView,
    name: Seq<char>,
    child: NodeView,
    declares_id: bool,
    nested: bool,
) -> Result<NodeView, Seq<char>> {
    match child_place(base.children, name) {
        None => Ok(NodeView { children: base.children.push(child), ..base }),
        Some(place) => if base.children[place].class != child.class {
            Err(
                (if nested {
                    "nested Rojo contributions for "@
                } else {
                    "mapped contributions for "@
                }) + name + " infer conflicting classes"@,
            )
        } else {
            match merged(base.children[place], child) {
                Err(text) => Err(text),
                Ok(whole) => Ok(
                    NodeView {
                        children: base.children.update(
                            place,
                            if declares_id {
                                NodeView { id: child.id, ..whole }
                            } else {
                                whole
                            },
                        ),
                        ..base
                    },
                ),
            }
        },
    }
}

/// An instance with the contributions of a node's children taken in.
pub open spec fn contributed(
    base: NodeView,
    children: Seq<SourceChild>,
    route: Seq<Seq<char>>,
    ids: Map<Seq<char>, Seq<char>>,
    nested: bool,
    reflection: Reflection,
) -> Result<(NodeView, Map<Seq<char>, Seq<char>>), Seq<char>>
    decreases children,
{
    if children.len() == 0 {
        Ok((base, ids))
    } else {
        match contributed(base, children.drop_last(), route, ids, nested, reflection) {
            Err(text) => Err(text),
            Ok((before, ids)) => {
                let child = children.last();
                match evaluated(child.name@, child.node, route.push(child.name@), ids, nested, reflection) {
                    Err(text) => Err(text),
                    Ok((None, ids)) => Ok((before, ids)),
                    Ok((Some(contribution), ids)) => match joined_child(
                        before,
                        child.name@,
                        contribution,
                        child.node.metadata.id is Some,
                        nested,
                    ) {
                        Err(text) => Err(text),
                        Ok(after) => Ok((after, ids)),
                    },
                }
            },
        }
    }
}

proof fn lemma_entries_fail(entries: Seq<SourceEntry>, at: int, path: Seq<char>, reflection: Reflection)
    requires
        0 <= at <= entries.len(),
        entries_found(entries.take(at), path, reflection) is Err,
    ensures
        entries_found(entries, path, reflection) == entries_found(entries.take(at), path, reflection),
    decreases entries.len(),
{
    if at == entries.len() {
        assert(entries.take(at) =~= entries);
    } else {
        assert(entries.drop_last().take(at) =~= entries.take(at));
        lemma_entries_fail(entries.drop_last(), at, path, reflection);
    }
}

proof fn lemma_contributed_fails(
    base: NodeView,
    children: Seq<SourceChild>,
    at: int,
    route: Seq<Seq<char>>,
    ids: Map<Seq<char>, Seq<char>>,
    nested: bool,
    reflection: Reflection,
)
    requires
        0 <= at <= children.len(),
        contributed(base, children.take(at), route, ids, nested, reflection) is Err,
    ensures
        contributed(base, children, route, ids, nested, reflection) == contributed(
            base,
            children.take(at),
            route,
            ids,
            nested,
            reflection,
        ),
    decreases children.len(),
{
    if at == children.len() {
        assert(children.take(at) =~= children);
    } else {
        assert(children.drop_last().take(at) =~= children.take(at));
        lemma_contributed_fails(base, children.drop_last(), at, route, ids, nested, reflection);
    }
}

/// What was found in a directory so far.
struct Finding<'a> {
    init: Option<(&'a String, &'a String)>,
    metadata: Option<&'a Metadata>,
    children: Vec<Snapshot>,
    portable: bool,
}

impl<'a> Finding<'a> {
    spec fn found(self) -> Found {
        Found {
            init: match self.init {
                Some((file, text)) => Some((file@, text@)),
                None => None,
            },
            metadata: match self.metadata {
                Some(metadata) => Some(*metadata),
                None => None,
            },
            children: nodes(self.children@),
            portable: self.portable,
        }
    }
}

fn unread(path: &str) -> (error: SourceError)
    ensures
        error.message@ == "mapped source file was not read: "@ + path@,
{
    refused(joined("mapped source file was not read: ", path))
}

/// Takes one entry of a directory.
fn take_entry<'a>(
    finding: Finding<'a>,
    entry: &'a SourceEntry,
    child: Option<(Snapshot, bool)>,
    path: &str,
) -> (result: Result<Finding<'a>, SourceError>)
    requires
        entry.kind is Directory <==> child is Some,
    ensures
        ({
            let found = finding.found();
            let name = entry.name@;
            let expected: Result<Found, Seq<char>> = if name == "meta.json"@ && entry.kind.is_file() {
                match entry.kind {
                    EntryKind::Meta(metadata) => if found.metadata is Some {
                        Err("mapped directory contains multiple meta.json files"@)
                    } else {
                        Ok(Found { metadata: Some(metadata), portable: true, ..found })
                    },
                    _ => Err("mapped source file was not read: "@ + entry.path@),
                }
            } else if entry.kind.is_file() && is_init_file(name) {
                if found.init is Some {
                    Err("mapped directory contains multiple init script variants: "@ + path@)
                } else {
                    match entry.kind {
                        EntryKind::Text(text) => Ok(Found { init: Some((name, text@)), portable: true, ..found }),
                        _ => Err("mapped source file was not read: "@ + entry.path@),
                    }
                }
            } else {
                match entry.kind {
                    EntryKind::Directory(_) => if (child->0).1 {
                        Ok(Found { children: found.children.push((child->0).0.node()), portable: true, ..found })
                    } else {
                        Ok(found)
                    },
                    EntryKind::Other => Err("unsupported mapped source entry "@ + entry.path@),
                    _ => if ".meta.json"@.is_suffix_of(name) {
                        Err("adjacent per-script metadata is unsupported; use directory meta.json: "@ + entry.path@)
                    } else if is_source_file(name) {
                        match named_script(name, 0) {
                            None => Err(NameError::UnsupportedForm(entry.name).text()),
                            Some(script) => if script.len() == 0 {
                                Err(NameError::NoScriptName(entry.name).text())
                            } else if refused_name(script) is Some {
                                Err(refused_name(script)->0)
                            } else {
                                match entry.kind {
                                    EntryKind::Text(text) => match script_node(entry.path@, name, text@, script) {
                                        Ok(child) => Ok(
                                            Found { children: found.children.push(child), portable: true, ..found },
                                        ),
                                        Err(text) => Err(text),
                                    },
                                    _ => Err("mapped source file was not read: "@ + entry.path@),
                                }
                            },
                        }
                    } else {
                        Ok(found)
                    },
                }
            };
            match expected {
                Ok(after) => result matches Ok(finding) && finding.found() == after,
                Err(text) => result matches Err(error) && error.message@ == text,
            }
        }),
{
    let name: &str = entry.name.as_str();
    let is_file: bool = match &entry.kind {
        EntryKind::Meta(_) => true,
        EntryKind::Text(_) => true,
        EntryKind::Unread => true,
        _ => false,
    };
    let mut finding: Finding<'a> = finding;
    let ghost before = finding.found();
    if is_file && name.eq("meta.json") {
        match &entry.kind {
            EntryKind::Meta(metadata) => {
                if finding.metadata.is_some() {
                    return Err(refused("mapped directory contains multiple meta.json files".to_owned()));
                }
                finding.metadata = Some(metadata);
                finding.portable = true;
                return Ok(finding);
            },
            _ => {
                return Err(unread(entry.path.as_str()));
            },
        }
    }
    if is_file && is_init_script_file(name) {
        if finding.init.is_some() {
            return Err(refused(joined("mapped directory contains multiple init script variants: ", path)));
        }
        match &entry.kind {
            EntryKind::Text(text) => {
                finding.init = Some((&entry.name, text));
                finding.portable = true;
                return Ok(finding);
            },
            _ => {
                return Err(unread(entry.path.as_str()));
            },
        }
    }
    match &entry.kind {
        EntryKind::Directory(_) => {
            match child {
                Some((snapshot, portable)) => {
                    if portable {
                        let ghost view = snapshot.node();
                        finding.children.push(snapshot);
                        finding.portable = true;
                        proof {
                            assert(nodes(finding.children@) =~= before.children.push(view));
                        }
                    }
                },
                None => {},
            }
            Ok(finding)
        },
        EntryKind::Other => Err(refused(joined("unsupported mapped source entry ", entry.path.as_str()))),
        _ => {
            if ends_with(name, ".meta.json") {
                return Err(
                    refused(
                        joined(
                            "adjacent per-script metadata is unsupported; use directory meta.json: ",
                            entry.path.as_str(),
                        ),
                    ),
                );
            }
            if !is_script_source_file(name) {
                return Ok(finding);
            }
            let script: String = match script_name(name) {
                Ok(script) => script,
                Err(error) => {
                    return Err(refused(error.message()));
                },
            };
            match validate_instance_name(script.as_str()) {
                Ok(()) => {},
                Err(error) => {
                    return Err(refused(error.message()));
                },
            }
            match &entry.kind {
                EntryKind::Text(text) => match read_script_file(entry.path.as_str(), name, text, script.as_str()) {
                    Ok(snapshot) => {
                        let ghost view = snapshot.node();
                        finding.children.push(snapshot);
                        finding.portable = true;
                        proof {
                            assert(nodes(finding.children@) =~= before.children.push(view));
                        }
                        Ok(finding)
                    },
                    Err(error) => Err(error),
                },
                _ => Err(unread(entry.path.as_str())),
            }
        },
    }
}

/// A directory with its metadata taken over.
fn describe(snapshot: Snapshot, metadata: Option<&Metadata>, reflection: &Reflection) -> (result: Result<
    Snapshot,
    SourceError,
>)
    ensures
        match described(
            snapshot.node(),
            match metadata {
                Some(metadata) => Some(*metadata),
                None => None,
            },
            *reflection,
        ) {
            Ok(expected) => result matches Ok(found) && found.node() == expected,
            Err(text) => result matches Err(error) && error.message@ == text,
        },
{
    let mut snapshot: Snapshot = snapshot;
    match metadata {
        None => Ok(snapshot),
        Some(metadata) => {
            let ghost given = snapshot.node();
            match &metadata.id {
                Some(id) => {
                    snapshot.id = identity_ref(id.as_str());
                    proof {
                        assert(snapshot.node().children =~= given.children);
                        assert(snapshot.node() =~= NodeView { id: named_identity(id@), ..given });
                    }
                },
                None => {},
            }
            let class: String = snapshot.class.clone();
            match apply_values(&mut snapshot, metadata, class.as_str(), reflection) {
                Ok(()) => Ok(snapshot),
                Err(error) => Err(error),
            }
        },
    }
}

fn class_of_init(init: &Option<(&String, &String)>) -> (class: &'static str)
    ensures
        class@ == init_class(
            match *init {
                Some((file, text)) => Some((file@, text@)),
                None => None,
            },
        ),
{
    match init {
        None => "Folder",
        Some((file, _)) => if file.as_str().eq("init.server.luau") || file.as_str().eq("init.server.lua") {
            "Script"
        } else if file.as_str().eq("init.client.luau") || file.as_str().eq("init.client.lua") {
            "LocalScript"
        } else {
            "ModuleScript"
        },
    }
}

/// Reads the instance that a directory stands for, and whether a checkout carries
/// it.
pub fn read_directory_instance(directory: &SourceDirectory, name: &str, reflection: &Reflection) -> (result: Result<
    (Snapshot, bool),
    SourceError,
>)
    ensures
        match directory_node(*directory, name@, *reflection) {
            Ok((node, portable)) => result matches Ok(found) && found.0.node() == node && found.1 == portable,
            Err(text) => result matches Err(error) && error.message@ == text,
        },
    decreases directory,
{
    match validate_instance_name(name) {
        Ok(()) => {},
        Err(error) => {
            return Err(refused(error.message()));
        },
    }
    match &directory.project {
        Some(project) => {
            let mut route: Vec<String> = Vec::new();
            route.push(joined("nested-project:", project.path.as_str()));
            let mut ids: Identities = TextMap::new();
            proof {
                assert(texts(route@) =~= seq!["nested-project:"@ + project.path@]);
                assert(ids.deep() =~= Map::empty());
            }
            return match evaluate_node(name, &*project.tree, &route, &mut ids, true, reflection) {
                Ok(found) => match found {
                    Some(snapshot) => Ok((snapshot, true)),
                    None => Err(refused(joined("nested Rojo project root did not resolve: ", project.path.as_str()))),
                },
                Err(error) => Err(error),
            };
        },
        None => {},
    }
    let mut finding: Finding = Finding { init: None, metadata: None, children: Vec::new(), portable: false };
    let ghost entries = directory.entries@;
    let mut at: usize = 0;
    proof {
        assert(entries.take(0) =~= Seq::empty());
        assert(finding.found().children =~= Seq::empty());
    }
    while at < directory.entries.len()
        invariant
            at <= directory.entries@.len(),
            entries == directory.entries@,
            directory.project is None,
            refused_name(name@) is None,
            entries_found(entries.take(at as int), directory.path@, *reflection) == Ok::<Found, Seq<char>>(
                finding.found(),
            ),
        decreases directory.entries@.len() - at,
    {
        let entry: &SourceEntry = &directory.entries[at];
        proof {
            assert(entries.take(at + 1).drop_last() =~= entries.take(at as int));
            assert(entries.take(at + 1).last() == *entry);
        }
        let child: Option<(Snapshot, bool)> = match &entry.kind {
            EntryKind::Directory(below) => match validate_instance_name(entry.name.as_str()) {
                Ok(()) => match read_directory_instance(below, entry.name.as_str(), reflection) {
                    Ok(child) => Some(child),
                    Err(error) => {
                        proof {
                            lemma_entries_fail(entries, at + 1, directory.path@, *reflection);
                        }
                        return Err(error);
                    },
                },
                Err(error) => {
                    proof {
                        lemma_entries_fail(entries, at + 1, directory.path@, *reflection);
                    }
                    return Err(refused(error.message()));
                },
            },
            _ => None,
        };
        match take_entry(finding, entry, child, directory.path.as_str()) {
            Ok(next) => {
                finding = next;
            },
            Err(error) => {
                proof {
                    lemma_entries_fail(entries, at + 1, directory.path@, *reflection);
                }
                return Err(error);
            },
        }
        at = at + 1;
    }
    proof {
        assert(entries.take(entries.len() as int) =~= entries);
    }
    match validate_sibling_names(&finding.children, directory.path.as_str()) {
        Ok(()) => {},
        Err(error) => {
            return Err(error);
        },
    }
    let class: &str = class_of_init(&finding.init);
    let source: Option<&String> = match finding.init {
        Some((_, text)) => Some(text),
        None => None,
    };
    let mut snapshot: Snapshot = make_node(
        stable_ref(joined("source:", directory.path.as_str()).as_str()),
        name,
        class,
        source,
    );
    let ghost all = nodes(finding.children@);
    snapshot.children = finding.children;
    proof {
        lemma_children(snapshot);
        assert(snapshot.node().children =~= all);
    }
    match describe(snapshot, finding.metadata, reflection) {
        Ok(snapshot) => Ok((snapshot, finding.portable)),
        Err(error) => Err(error),
    }
}

fn read_plain_source(name: &str, node: &SourceNode, route: &Vec<String>, nested: bool) -> (result: Result<
    Option<Snapshot>,
    SourceError,
>)
    ensures
        match plain_source(name@, *node, texts(route@), nested) {
            Ok(expected) => result matches Ok(found) && match expected {
                Some(view) => found matches Some(found) && found.node() == view,
                None => found is None,
            },
            Err(text) => result matches Err(error) && error.message@ == text,
        },
{
    match &node.source {
        Source::Missing(path) => if !nested {
            Err(refused(joined("required mapped path is missing: ", path.as_str())))
        } else if !node.optional {
            Err(refused(joined("required nested Rojo path is missing: ", path.as_str())))
        } else {
            Ok(None)
        },
        Source::Inline => {
            let id: crate::Ref = stable_ref(joined("inline:", join(route, ".").as_str()).as_str());
            match &node.class_name {
                Some(class) => Ok(Some(make_node(id, name, class.as_str(), None))),
                None => Ok(Some(make_node(id, name, "Folder", None))),
            }
        },
        Source::File(file) => match read_script_file(file.path.as_str(), file.file_name.as_str(), &file.source, name) {
            Ok(found) => Ok(Some(found)),
            Err(error) => Err(error),
        },
        Source::Other(path) => if nested {
            Err(refused(joined("nested Rojo path is neither a file nor directory: ", path.as_str())))
        } else {
            Err(refused(joined("mapped path is neither a file nor directory: ", path.as_str())))
        },
        Source::Directory(_) => Ok(None),
    }
}

fn give_class(found: Snapshot, class_name: &Option<String>, inline: bool, name: &str, nested: bool) -> (result: Result<
    Snapshot,
    SourceError,
>)
    ensures
        match classed(found.node(), *class_name, inline, name@, nested) {
            Ok(expected) => result matches Ok(found) && found.node() == expected,
            Err(text) => result matches Err(error) && error.message@ == text,
        },
{
    let mut found: Snapshot = found;
    match class_name {
        None => Ok(found),
        Some(class) => {
            if !is_filesystem_class(class.as_str()) {
                return Err(refused(joined("unsupported filesystem-owned class ", class.as_str())));
            }
            if !inline && !found.class.as_str().eq(class.as_str()) {
                let mut message: String = joined("$className ", class.as_str());
                if nested {
                    message.append(" conflicts with inferred nested Rojo class ");
                } else {
                    message.append(" conflicts with inferred mapped class ");
                }
                message.append(found.class.as_str());
                message.append(" at ");
                message.append(name);
                return Err(refused(message));
            }
            let ghost given = found.node();
            found.class = class.clone();
            proof {
                assert(found.node().children =~= given.children);
                assert(found.node() =~= NodeView { class: class@, ..given });
            }
            Ok(found)
        },
    }
}

fn join_child(base: Snapshot, name: &str, child: Snapshot, declares_id: bool, nested: bool) -> (result: Result<
    Snapshot,
    SourceError,
>)
    ensures
        match joined_child(base.node(), name@, child.node(), declares_id, nested) {
            Ok(expected) => result matches Ok(found) && found.node() == expected,
            Err(text) => result matches Err(error) && error.message@ == text,
        },
{
    let mut base: Snapshot = base;
    let ghost given = base.node();
    proof {
        lemma_children(base);
    }
    match find_child(&base.children, name) {
        None => {
            let ghost view = child.node();
            base.children.push(child);
            proof {
                lemma_children(base);
                assert(base.node().children =~= given.children.push(view));
            }
            Ok(base)
        },
        Some(place) => {
            if !base.children[place].class.as_str().eq(child.class.as_str()) {
                let mut message: String = if nested {
                    "nested Rojo contributions for ".to_owned()
                } else {
                    "mapped contributions for ".to_owned()
                };
                message.append(name);
                message.append(" infer conflicting classes");
                return Err(refused(message));
            }
            match merge_snapshots(&base.children[place], &child) {
                Err(error) => Err(error),
                Ok(whole) => {
                    let mut whole: Snapshot = whole;
                    let ghost plain = whole.node();
                    if declares_id {
                        whole.id = child.id;
                        proof {
                            assert(whole.node().children =~= plain.children);
                            assert(whole.node() =~= NodeView { id: child.id, ..plain });
                        }
                    }
                    let ghost view = whole.node();
                    base.children.set(place, whole);
                    proof {
                        lemma_children(base);
                        assert(base.node().children =~= given.children.update(place as int, view));
                    }
                    Ok(base)
                },
            }
        },
    }
}

/// Evaluates a node of a project: the instance that it stands for. `ids` are the
/// identities that were declared so far.
pub fn evaluate_node(
    name: &str,
    node: &SourceNode,
    route: &Vec<String>,
    ids: &mut Identities,
    nested: bool,
    reflection: &Reflection,
) -> (result: Result<Option<Snapshot>, SourceError>)
    ensures
        match evaluated(name@, *node, texts(route@), old(ids).deep(), nested, *reflection) {
            Ok((expected, after)) => {
                &&& final(ids).deep() == after
                &&& result matches Ok(found)
                &&& match expected {
                    Some(view) => found matches Some(found) && found.node() == view,
                    None => found is None,
                }
            },
            Err(text) => result matches Err(error) && error.message@ == text,
        },
    decreases node,
{
    let ghost given = ids.deep();
    let start: Option<Snapshot> = match &node.source {
        Source::Directory(directory) => match read_directory_instance(directory, name, reflection) {
            Ok(found) => Some(found.0),
            Err(error) => {
                return Err(error);
            },
        },
        _ => match read_plain_source(name, node, route, nested) {
            Ok(found) => found,
            Err(error) => {
                return Err(error);
            },
        },
    };
    let found: Snapshot = match start {
        Some(found) => found,
        None => {
            return Ok(None);
        },
    };
    let inline: bool = match &node.source {
        Source::Inline => true,
        _ => false,
    };
    let found: Snapshot = match give_class(found, &node.class_name, inline, name, nested) {
        Ok(found) => found,
        Err(error) => {
            return Err(error);
        },
    };
    let class: String = found.class.clone();
    let found: Snapshot = match apply_metadata(found, &node.metadata, class.as_str(), reflection, ids) {
        Ok(found) => found,
        Err(error) => {
            return Err(error);
        },
    };
    let ghost base = found.node();
    let ghost known = ids.deep();
    let ghost children = node.children@;
    let ghost here = texts(route@);
    let mut whole: Snapshot = found;
    let mut at: usize = 0;
    proof {
        assert(children.take(0) =~= Seq::empty());
    }
    while at < node.children.len()
        invariant
            at <= node.children@.len(),
            children == node.children@,
            here == texts(route@),
            given == old(ids).deep(),
            contributed(base, children.take(at as int), here, known, nested, *reflection) == Ok::<
                (NodeView, Map<Seq<char>, Seq<char>>),
                Seq<char>,
            >((whole.node(), ids.deep())),
            contributed(base, children, here, known, nested, *reflection) is Err ==> evaluated(
                name@,
                *node,
                here,
                given,
                nested,
                *reflection,
            ) == Err::<(Option<NodeView>, Map<Seq<char>, Seq<char>>), Seq<char>>(
                contributed(base, children, here, known, nested, *reflection)->Err_0,
            ),
        decreases node.children@.len() - at,
    {
        let child: &SourceChild = &node.children[at];
        let mut below: Vec<String> = copy_texts(route);
        below.push(child.name.clone());
        proof {
            assert(children.take(at + 1).drop_last() =~= children.take(at as int));
            assert(children.take(at + 1).last() == *child);
            assert(texts(below@) =~= here.push(child.name@));
        }
        match evaluate_node(child.name.as_str(), &child.node, &below, ids, nested, reflection) {
            Ok(contribution) => match contribution {
                Some(contribution) => match join_child(
                    whole,
                    child.name.as_str(),
                    contribution,
                    child.node.metadata.id.is_some(),
                    nested,
                ) {
                    Ok(next) => {
                        whole = next;
                    },
                    Err(error) => {
                        proof {
                            lemma_contributed_fails(base, children, at + 1, here, known, nested, *reflection);
                        }
                        return Err(error);
                    },
                },
                None => {},
            },
            Err(error) => {
                proof {
                    lemma_contributed_fails(base, children, at + 1, here, known, nested, *reflection);
                }
                return Err(error);
            },
        }
        at = at + 1;
    }
    proof {
        assert(children.take(children.len() as int) =~= children);
    }
    match validate_filesystem_subtree(&whole, name) {
        Ok(()) => Ok(Some(whole)),
        Err(error) => Err(error),
    }
}

/// Below a mapping there are folders and scripts only.
pub proof fn law_mappings_hold_folders_and_scripts_only(
    name: Seq<char>,
    node: SourceNode,
    route: Seq<Seq<char>>,
    ids: Map<Seq<char>, Seq<char>>,
    nested: bool,
    reflection: Reflection,
    k: int,
)
    requires
        evaluated(name, node, route, ids, nested, reflection) matches Ok((Some(found), _)) && 0 <= k < flat(
            found,
            None,
        ).len(),
    ensures
        filesystem_like(
            flat((evaluated(name, node, route, ids, nested, reflection)->Ok_0).0->0, None)[k].node.class,
        ),
{
    let found = (evaluated(name, node, route, ids, nested, reflection)->Ok_0).0->0;
    assert(refused_subtree(found, name) is None);
    lemma_accepted_classes(found, None, name);
}

} // verus!
