//! The source map of a project: which file holds which script.

use crate::json_view::{
    array_view, copy_json, field, find_field, json_parsed, json_view, lemma_array_pushed, lemma_object_pushed,
    object_view, read_json, Fields, JsonView,
};
use crate::names::{
    below, is_init_file, is_init_script_file, is_script_source_file, is_source_file, named_script, path_below, script_class,
    script_class_of, script_name, NameError,
};
use crate::project_document::{Json, JsonField};
use crate::source_tree::{EntryKind, Source, SourceChild, SourceDirectory, SourceEntry, SourceNode};
use crate::text::{copy_texts, same_texts, texts};
use vstd::prelude::*;

verus! {

/// The file that holds a script, by the route of the script.
#[derive(Debug)]
pub struct ScriptPath {
    pub route: Vec<String>,
    pub path: String,
}

#[verifier::ext_equal]
pub struct ScriptPathView {
    pub route: Seq<Seq<char>>,
    pub path: Seq<char>,
}

impl View for ScriptPath {
    type V = ScriptPathView;

    open spec fn view(&self) -> ScriptPathView {
        ScriptPathView { route: texts(self.route@), path: self.path@ }
    }
}

/// What script paths are.
pub open spec fn script_paths(list: Seq<ScriptPath>) -> Seq<ScriptPathView> {
    list.map_values(|script: ScriptPath| script@)
}

/// Scripts in the order in which they are found, or why they cannot be.
pub type Scripts = Result<Seq<ScriptPathView>, Seq<char>>;

/// What is found, and what is found next.
pub open spec fn followed_by(before: Scripts, next: Scripts) -> Scripts {
    match before {
        Ok(list) => match next {
            Ok(more) => Ok(list + more),
            Err(error) => Err(error),
        },
        Err(error) => Err(error),
    }
}

/// The scripts of a directory. A project in it takes its place.
pub open spec fn directory_scripts(directory: SourceDirectory, relative: Seq<char>, route: Seq<Seq<char>>) -> Scripts
    decreases directory,
{
    match directory.project {
        Some(project) => nested_scripts(*project.tree, relative, route),
        None => entry_scripts(directory.entries@, relative, route),
    }
}

/// The scripts of the entries of a directory.
pub open spec fn entry_scripts(entries: Seq<SourceEntry>, relative: Seq<char>, route: Seq<Seq<char>>) -> Scripts
    decreases entries,
{
    if entries.len() == 0 {
        Ok(Seq::empty())
    } else {
        let entry = entries.last();
        let path = path_below(relative, entry.name@);
        let own = match entry.kind {
            EntryKind::Directory(below) => directory_scripts(below, path, route.push(entry.name@)),
            EntryKind::Other => Ok(Seq::empty()),
            _ => file_scripts(entry.name@, path, route),
        };
        followed_by(entry_scripts(entries.drop_last(), relative, route), own)
    }
}

/// The script that a file in a directory holds. An init script is its directory's.
pub open spec fn file_scripts(name: Seq<char>, path: Seq<char>, route: Seq<Seq<char>>) -> Scripts {
    if is_init_file(name) {
        Ok(seq![ScriptPathView { route, path }])
    } else if !is_source_file(name) {
        Ok(Seq::empty())
    } else {
        match named_script(name, 0) {
            Some(script) => if script.len() == 0 {
                Err("script file has no Roblox name: "@ + name)
            } else {
                Ok(seq![ScriptPathView { route: route.push(script), path }])
            },
            None => Ok(Seq::empty()),
        }
    }
}

/// The scripts at the path of a node.
pub open spec fn source_scripts(source: Source, path: Seq<char>, route: Seq<Seq<char>>) -> Scripts
    decreases source,
{
    match source {
        Source::File(file) => if script_class_of(file.file_name@) is Some {
            Ok(seq![ScriptPathView { route, path }])
        } else {
            Err("unsupported mapped source file "@ + file.file_name@)
        },
        Source::Directory(directory) => directory_scripts(directory, path, route),
        Source::Missing(resolved) => Err("failed to inspect mapped path "@ + resolved@),
        _ => Ok(Seq::empty()),
    }
}

/// The declared path of a node.
pub open spec fn declared_path(node: SourceNode) -> Seq<char> {
    match node.relative {
        Some(relative) => relative@,
        None => Seq::empty(),
    }
}

/// The scripts of a node of a nested project. What is below a node whose path may be
/// missing, and is, is not there.
pub open spec fn nested_scripts(node: SourceNode, root: Seq<char>, route: Seq<Seq<char>>) -> Scripts
    decreases node,
{
    if node.source is Missing && node.optional {
        Ok(Seq::empty())
    } else {
        followed_by(
            source_scripts(node.source, path_below(root, declared_path(node)), route),
            nested_child_scripts(node.children@, root, route),
        )
    }
}

pub open spec fn nested_child_scripts(children: Seq<SourceChild>, root: Seq<char>, route: Seq<Seq<char>>) -> Scripts
    decreases children,
{
    if children.len() == 0 {
        Ok(Seq::empty())
    } else {
        followed_by(
            nested_child_scripts(children.drop_last(), root, route),
            nested_scripts(children.last().node, root, route.push(children.last().name@)),
        )
    }
}

/// The scripts of a node of a project.
pub open spec fn node_scripts(node: SourceNode, route: Seq<Seq<char>>) -> Scripts
    decreases node,
{
    followed_by(
        source_scripts(node.source, declared_path(node), route),
        child_scripts(node.children@, route),
    )
}

pub open spec fn child_scripts(children: Seq<SourceChild>, route: Seq<Seq<char>>) -> Scripts
    decreases children,
{
    if children.len() == 0 {
        Ok(Seq::empty())
    } else {
        followed_by(
            child_scripts(children.drop_last(), route),
            node_scripts(children.last().node, route.push(children.last().name@)),
        )
    }
}

/// What a search returned.
pub open spec fn is_found(result: Result<Vec<ScriptPath>, NameError>, scripts: Scripts) -> bool {
    match scripts {
        Ok(list) => result matches Ok(found) && script_paths(found@) == list,
        Err(text) => result matches Err(error) && error.text() == text,
    }
}

proof fn lemma_entries_fail(entries: Seq<SourceEntry>, relative: Seq<char>, route: Seq<Seq<char>>, count: int)
    requires
        0 <= count <= entries.len(),
        entry_scripts(entries.take(count), relative, route) is Err,
    ensures
        entry_scripts(entries, relative, route) == entry_scripts(entries.take(count), relative, route),
    decreases entries.len(),
{
    if count < entries.len() {
        assert(entries.drop_last().take(count) =~= entries.take(count));
        lemma_entries_fail(entries.drop_last(), relative, route, count);
    } else {
        assert(entries.take(count) =~= entries);
    }
}

proof fn lemma_nested_children_fail(children: Seq<SourceChild>, root: Seq<char>, route: Seq<Seq<char>>, count: int)
    requires
        0 <= count <= children.len(),
        nested_child_scripts(children.take(count), root, route) is Err,
    ensures
        nested_child_scripts(children, root, route) == nested_child_scripts(children.take(count), root, route),
    decreases children.len(),
{
    if count < children.len() {
        assert(children.drop_last().take(count) =~= children.take(count));
        lemma_nested_children_fail(children.drop_last(), root, route, count);
    } else {
        assert(children.take(count) =~= children);
    }
}

proof fn lemma_children_fail(children: Seq<SourceChild>, route: Seq<Seq<char>>, count: int)
    requires
        0 <= count <= children.len(),
        child_scripts(children.take(count), route) is Err,
    ensures
        child_scripts(children, route) == child_scripts(children.take(count), route),
    decreases children.len(),
{
    if count < children.len() {
        assert(children.drop_last().take(count) =~= children.take(count));
        lemma_children_fail(children.drop_last(), route, count);
    } else {
        assert(children.take(count) =~= children);
    }
}

fn append_scripts(found: &mut Vec<ScriptPath>, more: Vec<ScriptPath>)
    ensures
        script_paths(final(found)@) == script_paths(old(found)@) + script_paths(more@),
{
    let mut more = more;
    let ghost given = found@;
    let ghost added = more@;
    found.append(&mut more);
    proof {
        assert(script_paths(found@) =~= script_paths(given) + script_paths(added));
    }
}

fn one_script(route: Vec<String>, path: String) -> (found: Vec<ScriptPath>)
    ensures
        script_paths(found@) == seq![ScriptPathView { route: texts(route@), path: path@ }],
{
    let script: ScriptPath = ScriptPath { route, path };
    let ghost view = script@;
    let mut found: Vec<ScriptPath> = Vec::new();
    found.push(script);
    proof {
        assert(script_paths(found@) =~= seq![view]);
    }
    found
}

fn no_scripts() -> (found: Vec<ScriptPath>)
    ensures
        script_paths(found@) == Seq::<ScriptPathView>::empty(),
{
    let found: Vec<ScriptPath> = Vec::new();
    proof {
        assert(script_paths(found@) =~= Seq::empty());
    }
    found
}

fn route_to(route: &Vec<String>, name: &str) -> (longer: Vec<String>)
    ensures
        texts(longer@) == texts(route@).push(name@),
{
    let mut longer: Vec<String> = copy_texts(route);
    longer.push(name.to_owned());
    proof {
        assert(texts(longer@) =~= texts(route@).push(name@));
    }
    longer
}

fn collect_file_script(name: &str, path: String, route: &Vec<String>) -> (result: Result<Vec<ScriptPath>, NameError>)
    ensures
        is_found(result, file_scripts(name@, path@, texts(route@))),
{
    if is_init_script_file(name) {
        return Ok(one_script(copy_texts(route), path));
    }
    if !is_script_source_file(name) {
        return Ok(no_scripts());
    }
    proof {
        reveal_with_fuel(named_script, 8);
    }
    match script_name(name) {
        Ok(script) => Ok(one_script(route_to(route, script.as_str()), path)),
        Err(error) => Err(error),
    }
}

/// Finds the scripts of a directory.
pub fn collect_directory_script_paths(directory: &SourceDirectory, relative: &str, route: &Vec<String>) -> (result: Result<
    Vec<ScriptPath>,
    NameError,
>)
    ensures
        is_found(result, directory_scripts(*directory, relative@, texts(route@))),
    decreases directory,
{
    match &directory.project {
        Some(project) => {
            return collect_nested_project_script_paths(&*project.tree, relative, route);
        },
        None => {},
    }
    let ghost entries = directory.entries@;
    let ghost here = texts(route@);
    let mut found: Vec<ScriptPath> = no_scripts();
    proof {
        assert(entries.take(0) =~= Seq::empty());
    }
    let mut at: usize = 0;
    while at < directory.entries.len()
        invariant
            at <= directory.entries@.len(),
            entries == directory.entries@,
            here == texts(route@),
            directory.project is None,
            entry_scripts(entries.take(at as int), relative@, here) == Scripts::Ok(script_paths(found@)),
        decreases directory.entries@.len() - at,
    {
        let entry: &SourceEntry = &directory.entries[at];
        proof {
            assert(entries.take(at + 1).drop_last() =~= entries.take(at as int));
            assert(entries.take(at + 1).last() == *entry);
        }
        let path: String = below(relative, entry.name.as_str());
        let own: Result<Vec<ScriptPath>, NameError> = match &entry.kind {
            EntryKind::Directory(inner) => collect_directory_script_paths(
                inner,
                path.as_str(),
                &route_to(route, entry.name.as_str()),
            ),
            EntryKind::Other => Ok(no_scripts()),
            _ => collect_file_script(entry.name.as_str(), path, route),
        };
        match own {
            Ok(more) => {
                append_scripts(&mut found, more);
            },
            Err(error) => {
                proof {
                    lemma_entries_fail(entries, relative@, here, at + 1);
                }
                return Err(error);
            },
        }
        at = at + 1;
    }
    proof {
        assert(entries.take(entries.len() as int) =~= entries);
    }
    Ok(found)
}

fn collect_source_script_paths(source: &Source, path: &str, route: &Vec<String>) -> (result: Result<Vec<ScriptPath>, NameError>)
    ensures
        is_found(result, source_scripts(*source, path@, texts(route@))),
    decreases source,
{
    match source {
        Source::File(file) => match script_class(file.file_name.as_str()) {
            Ok(_) => Ok(one_script(copy_texts(route), path.to_owned())),
            Err(error) => Err(error),
        },
        Source::Directory(directory) => collect_directory_script_paths(directory, path, route),
        Source::Missing(resolved) => Err(NameError::Uninspected(resolved.clone())),
        _ => Ok(no_scripts()),
    }
}

fn declared(node: &SourceNode) -> (path: String)
    ensures
        path@ == declared_path(*node),
{
    match &node.relative {
        Some(relative) => relative.clone(),
        None => {
            let path: String = String::new();
            proof {
                assert(path@ =~= Seq::<char>::empty());
            }
            path
        },
    }
}

/// Finds the scripts of a node of a nested project, whose directory is `root`.
pub fn collect_nested_project_script_paths(node: &SourceNode, root: &str, route: &Vec<String>) -> (result: Result<
    Vec<ScriptPath>,
    NameError,
>)
    ensures
        is_found(result, nested_scripts(*node, root@, texts(route@))),
    decreases node,
{
    let missing: bool = match &node.source {
        Source::Missing(_) => node.optional,
        _ => false,
    };
    if missing {
        return Ok(no_scripts());
    }
    let path: String = below(root, declared(node).as_str());
    let mut found: Vec<ScriptPath> = match collect_source_script_paths(&node.source, path.as_str(), route) {
        Ok(found) => found,
        Err(error) => {
            return Err(error);
        },
    };
    let ghost own = script_paths(found@);
    let ghost children = node.children@;
    let ghost here = texts(route@);
    let mut listed: Vec<ScriptPath> = no_scripts();
    proof {
        assert(children.take(0) =~= Seq::empty());
    }
    let mut at: usize = 0;
    while at < node.children.len()
        invariant
            at <= node.children@.len(),
            children == node.children@,
            here == texts(route@),
            !(node.source is Missing && node.optional),
            source_scripts(node.source, path_below(root@, declared_path(*node)), here) == Scripts::Ok(own),
            nested_child_scripts(children.take(at as int), root@, here) == Scripts::Ok(script_paths(listed@)),
        decreases node.children@.len() - at,
    {
        let child: &SourceChild = &node.children[at];
        proof {
            assert(children.take(at + 1).drop_last() =~= children.take(at as int));
            assert(children.take(at + 1).last() == *child);
        }
        match collect_nested_project_script_paths(&child.node, root, &route_to(route, child.name.as_str())) {
            Ok(more) => {
                append_scripts(&mut listed, more);
            },
            Err(error) => {
                proof {
                    lemma_nested_children_fail(children, root@, here, at + 1);
                }
                return Err(error);
            },
        }
        at = at + 1;
    }
    proof {
        assert(children.take(children.len() as int) =~= children);
    }
    append_scripts(&mut found, listed);
    Ok(found)
}

/// Finds the scripts of a node of a project, and of what is below it.
pub fn collect_project_script_paths(node: &SourceNode, route: &Vec<String>) -> (result: Result<Vec<ScriptPath>, NameError>)
    ensures
        is_found(result, node_scripts(*node, texts(route@))),
    decreases node,
{
    let path: String = declared(node);
    let mut found: Vec<ScriptPath> = match collect_source_script_paths(&node.source, path.as_str(), route) {
        Ok(found) => found,
        Err(error) => {
            return Err(error);
        },
    };
    let ghost own = script_paths(found@);
    let ghost children = node.children@;
    let ghost here = texts(route@);
    let mut listed: Vec<ScriptPath> = no_scripts();
    proof {
        assert(children.take(0) =~= Seq::empty());
    }
    let mut at: usize = 0;
    while at < node.children.len()
        invariant
            at <= node.children@.len(),
            children == node.children@,
            here == texts(route@),
            source_scripts(node.source, declared_path(*node), here) == Scripts::Ok(own),
            child_scripts(children.take(at as int), here) == Scripts::Ok(script_paths(listed@)),
        decreases node.children@.len() - at,
    {
        let child: &SourceChild = &node.children[at];
        proof {
            assert(children.take(at + 1).drop_last() =~= children.take(at as int));
            assert(children.take(at + 1).last() == *child);
        }
        match collect_project_script_paths(&child.node, &route_to(route, child.name.as_str())) {
            Ok(more) => {
                append_scripts(&mut listed, more);
            },
            Err(error) => {
                proof {
                    lemma_children_fail(children, here, at + 1);
                }
                return Err(error);
            },
        }
        at = at + 1;
    }
    proof {
        assert(children.take(children.len() as int) =~= children);
    }
    append_scripts(&mut found, listed);
    Ok(found)
}

/// The file of a script: the last that was found for its route.
pub open spec fn script_at(list: Seq<ScriptPathView>, route: Seq<Seq<char>>) -> Option<Seq<char>>
    decreases list.len(),
{
    if list.len() == 0 {
        None
    } else if list.last().route == route {
        Some(list.last().path)
    } else {
        script_at(list.drop_last(), route)
    }
}

/// Finds the file of a script.
pub fn find_script<'a>(list: &'a Vec<ScriptPath>, route: &Vec<String>) -> (path: Option<&'a String>)
    ensures
        match script_at(script_paths(list@), texts(route@)) {
            Some(expected) => path matches Some(path) && path@ == expected,
            None => path is None,
        },
{
    let ghost all = script_paths(list@);
    let mut at: usize = list.len();
    proof {
        assert(all.take(at as int) =~= all);
    }
    while at > 0
        invariant
            at <= list@.len(),
            all == script_paths(list@),
            script_at(all, texts(route@)) == script_at(all.take(at as int), texts(route@)),
        decreases at,
    {
        proof {
            assert(all.take(at as int).drop_last() =~= all.take(at - 1));
            assert(all.take(at as int).last() == list@[at - 1]@);
        }
        if same_texts(&list[at - 1].route, route) {
            return Some(&list[at - 1].path);
        }
        at = at - 1;
    }
    None
}

// ---------------------------------------------------------------------------
// The document

/// The name of a node of the map.
pub open spec fn node_name(node: JsonView) -> Option<Seq<char>> {
    match node {
        JsonView::Object(fields) => match field(fields, "name"@) {
            Some(JsonView::String(name)) => Some(name),
            _ => None,
        },
        _ => None,
    }
}

/// The file that a node is listed with: the root with the project file, a script with
/// its own, another node with none.
pub open spec fn listed_file(
    route: Seq<Seq<char>>,
    scripts: Seq<ScriptPathView>,
    root_file: Seq<char>,
) -> Option<Seq<char>> {
    if route.len() == 0 {
        Some(root_file)
    } else {
        script_at(scripts, route)
    }
}

/// A node of the map that lists the files of the project in place of those that it
/// listed.
pub open spec fn relisted(
    node: JsonView,
    route: Seq<Seq<char>>,
    scripts: Seq<ScriptPathView>,
    root_file: Seq<char>,
) -> JsonView
    decreases node,
{
    match node {
        JsonView::Object(fields) => {
            let kept = relisted_fields(fields, route, scripts, root_file);
            match listed_file(route, scripts, root_file) {
                Some(file) => JsonView::Object(
                    kept.push(("filePaths"@, JsonView::Array(seq![JsonView::String(file)]))),
                ),
                None => JsonView::Object(kept),
            }
        },
        _ => node,
    }
}

/// The fields of a node without its files, with the nodes below relisted.
pub open spec fn relisted_fields(
    fields: Fields,
    route: Seq<Seq<char>>,
    scripts: Seq<ScriptPathView>,
    root_file: Seq<char>,
) -> Fields
    decreases fields,
{
    if fields.len() == 0 {
        Seq::empty()
    } else {
        let before = relisted_fields(fields.drop_last(), route, scripts, root_file);
        let key = fields.last().0;
        if key == "filePaths"@ {
            before
        } else {
            match fields.last().1 {
                JsonView::Array(list) => if key == "children"@ {
                    before.push((key, JsonView::Array(relisted_nodes(list, route, scripts, root_file))))
                } else {
                    before.push(fields.last())
                },
                _ => before.push(fields.last()),
            }
        }
    }
}

/// Nodes of the map, relisted; one without a name stays as it is.
pub open spec fn relisted_nodes(
    list: Seq<JsonView>,
    route: Seq<Seq<char>>,
    scripts: Seq<ScriptPathView>,
    root_file: Seq<char>,
) -> Seq<JsonView>
    decreases list,
{
    if list.len() == 0 {
        Seq::empty()
    } else {
        relisted_nodes(list.drop_last(), route, scripts, root_file).push(
            match node_name(list.last()) {
                Some(name) => relisted(list.last(), route.push(name), scripts, root_file),
                None => list.last(),
            },
        )
    }
}

fn name_of(node: &Json) -> (name: Option<String>)
    ensures
        match node_name(json_view(*node)) {
            Some(expected) => name matches Some(name) && name@ == expected,
            None => name is None,
        },
{
    match node {
        Json::Object(fields) => match find_field(fields, "name") {
            Some(Json::String(name)) => Some(name.clone()),
            _ => None,
        },
        _ => None,
    }
}

/// The field that lists a file.
fn file_field(file: &String) -> (listed: JsonField)
    ensures
        listed.key@ == "filePaths"@,
        json_view(listed.value) == JsonView::Array(seq![JsonView::String(file@)]),
{
    let text: Json = Json::String(file.clone());
    let mut list: Vec<Json> = Vec::new();
    proof {
        lemma_array_pushed(list@, text);
        assert(array_view(list@) =~= Seq::empty());
        assert(json_view(text) == JsonView::String(file@));
    }
    list.push(text);
    proof {
        assert(array_view(list@) =~= seq![JsonView::String(file@)]);
    }
    JsonField { key: "filePaths".to_owned(), value: Json::Array(list) }
}

/// Lists the files of the project in a node of the map, and in the nodes below it.
pub fn relist(node: &Json, route: &Vec<String>, scripts: &Vec<ScriptPath>, root_file: &String) -> (listed: Json)
    ensures
        json_view(listed) == relisted(json_view(*node), texts(route@), script_paths(scripts@), root_file@),
    decreases node, 1int,
{
    match node {
        Json::Object(fields) => {
            let mut kept: Vec<JsonField> = relist_fields(fields, route, scripts, root_file);
            let file: Option<&String> = if route.len() == 0 {
                Some(root_file)
            } else {
                find_script(scripts, route)
            };
            match file {
                Some(file) => {
                    let added: JsonField = file_field(file);
                    proof {
                        lemma_object_pushed(kept@, added);
                    }
                    kept.push(added);
                },
                None => {},
            }
            Json::Object(kept)
        },
        _ => copy_json(node),
    }
}

fn relist_fields(fields: &Vec<JsonField>, route: &Vec<String>, scripts: &Vec<ScriptPath>, root_file: &String) -> (kept: Vec<
    JsonField,
>)
    ensures
        object_view(kept@) == relisted_fields(object_view(fields@), texts(route@), script_paths(scripts@), root_file@),
    decreases fields, 0int,
{
    let ghost here = texts(route@);
    let ghost known = script_paths(scripts@);
    let mut kept: Vec<JsonField> = Vec::new();
    let mut at: usize = 0;
    proof {
        assert(fields@.take(0) =~= Seq::empty());
    }
    while at < fields.len()
        invariant
            at <= fields@.len(),
            here == texts(route@),
            known == script_paths(scripts@),
            object_view(kept@) == relisted_fields(object_view(fields@.take(at as int)), here, known, root_file@),
        decreases fields@.len() - at,
    {
        let held: &JsonField = &fields[at];
        proof {
            assert(fields@.take(at + 1) =~= fields@.take(at as int).push(*held));
            lemma_object_pushed(fields@.take(at as int), *held);
            let before = object_view(fields@.take(at as int));
            assert(before.push((held.key@, json_view(held.value))).drop_last() =~= before);
        }
        if !held.key.as_str().eq("filePaths") {
            let value: Json = match &held.value {
                Json::Array(list) => if held.key.as_str().eq("children") {
                    Json::Array(relist_nodes(list, route, scripts, root_file))
                } else {
                    copy_json(&held.value)
                },
                _ => copy_json(&held.value),
            };
            let added: JsonField = JsonField { key: held.key.clone(), value };
            proof {
                lemma_object_pushed(kept@, added);
            }
            kept.push(added);
        }
        at = at + 1;
    }
    proof {
        assert(fields@.take(fields@.len() as int) =~= fields@);
    }
    kept
}

fn relist_nodes(list: &Vec<Json>, route: &Vec<String>, scripts: &Vec<ScriptPath>, root_file: &String) -> (listed: Vec<Json>)
    ensures
        array_view(listed@) == relisted_nodes(array_view(list@), texts(route@), script_paths(scripts@), root_file@),
    decreases list, 0int,
{
    let ghost here = texts(route@);
    let ghost known = script_paths(scripts@);
    let mut listed: Vec<Json> = Vec::new();
    let mut at: usize = 0;
    proof {
        assert(list@.take(0) =~= Seq::empty());
    }
    while at < list.len()
        invariant
            at <= list@.len(),
            here == texts(route@),
            known == script_paths(scripts@),
            array_view(listed@) == relisted_nodes(array_view(list@.take(at as int)), here, known, root_file@),
        decreases list@.len() - at,
    {
        let node: &Json = &list[at];
        proof {
            assert(list@.take(at + 1) =~= list@.take(at as int).push(*node));
            lemma_array_pushed(list@.take(at as int), *node);
            let before = array_view(list@.take(at as int));
            assert(before.push(json_view(*node)).drop_last() =~= before);
        }
        let value: Json = match name_of(node) {
            Some(name) => relist(node, &route_to(route, name.as_str()), scripts, root_file),
            None => copy_json(node),
        };
        proof {
            lemma_array_pushed(listed@, value);
        }
        listed.push(value);
        at = at + 1;
    }
    proof {
        assert(list@.take(list@.len() as int) =~= list@);
    }
    listed
}

/// Lists the files of the project in the bytes of a map.
pub fn relist_map(bytes: &[u8], scripts: &Vec<ScriptPath>, root_file: &String) -> (listed: Result<Json, String>)
    ensures
        match json_parsed(bytes@) {
            Ok(map) => listed matches Ok(listed) && json_view(listed) == relisted(
                map,
                Seq::empty(),
                script_paths(scripts@),
                root_file@,
            ),
            Err(text) => listed matches Err(reason) && reason@ == text,
        },
{
    match read_json(bytes) {
        Ok(map) => {
            let route: Vec<String> = Vec::new();
            proof {
                assert(texts(route@) =~= Seq::empty());
            }
            Ok(relist(&map, &route, scripts, root_file))
        },
        Err(reason) => Err(reason),
    }
}

} // verus!
