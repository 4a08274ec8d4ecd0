//! What has to be written so that the identities of mapped instances stay.

use crate::hierarchy::set_members;
use crate::identity_locations::{find_identity_locations, location_views, node_locations, IdentityLocation, LocationView};
use crate::json_view::{
    field, field_place, find_field, json_parsed, json_view, lemma_found, lemma_kept_field, lemma_object_pushed,
    lemma_same_place, object_view, put_field, read_json, with_field, Fields, JsonView,
};
use crate::names::{
    below, named_script, path_below, script_class, script_class_of, script_name, script_suffix, suffix_of,
};
use crate::project_document::{Json, JsonField};
use crate::project_writing::take_node;
use crate::source_metadata::{refused, SourceError};
use crate::source_tree::SourceNode;
use crate::text::{copy_texts, decimal, decimal_text, join, joined, ref_chars, ref_text, separated, texts};
use crate::tree::{sort_refs, sorted_refs};
use crate::Ref;
use std::collections::HashSet;
use vstd::prelude::*;
use vstd::string::StringSliceAdditionalSpecFns;

verus! {

broadcast use vstd::std_specs::hash::group_hash_axioms;

/// A list that holds a set's members in order.
pub open spec fn lists_in_order(list: Seq<Ref>, set: Set<Ref>) -> bool {
    exists|members: Seq<Ref>| members.to_set() == set && list == #[trigger] sorted_refs(members)
}

/// Puts the identities in order that have to be written down: all are to be mapped.
pub fn identity_targets(targets: &HashSet<u128>, mapped: &HashSet<u128>) -> (ordered: Result<Vec<Ref>, SourceError>)
    ensures
        match ordered {
            Ok(ordered) => targets@.subset_of(mapped@) && lists_in_order(ordered@, targets@),
            Err(error) => !targets@.subset_of(mapped@) && error.message@
                == "capture requested identity persistence for a non-mapped target"@,
        },
{
    let members: Vec<Ref> = set_members(targets);
    let mut at: usize = 0;
    while at < members.len()
        invariant
            at <= members@.len(),
            members@.to_set() == targets@,
            forall|k: int| 0 <= k < at ==> mapped@.contains(#[trigger] members@[k]),
        decreases members@.len() - at,
    {
        if !mapped.contains(&members[at]) {
            proof {
                assert(members@.to_set().contains(members@[at as int]));
            }
            return Err(refused("capture requested identity persistence for a non-mapped target".to_owned()));
        }
        at = at + 1;
    }
    proof {
        assert forall|id: Ref| targets@.contains(id) implies mapped@.contains(id) by {
            assert(members@.to_set().contains(id));
        }
    }
    let ordered: Vec<Ref> = sort_refs(&members);
    Ok(ordered)
}

/// Why staging ends early.
pub open spec fn cancelled_text() -> Seq<char> {
    "Capture Manifest was cancelled during mapped-identity staging"@
}

fn cancelled_error() -> (error: SourceError)
    ensures
        error.message@ == cancelled_text(),
{
    refused("Capture Manifest was cancelled during mapped-identity staging".to_owned())
}

/// The one place that an identity comes from.
pub open spec fn planned(tree: SourceNode, target: Ref, cancelled: bool) -> Result<LocationView, Seq<char>> {
    let locations = node_locations(tree, Seq::empty(), target);
    if cancelled {
        Err(cancelled_text())
    } else if locations.len() != 1 {
        Err(
            "mapped reference target "@ + ref_chars(target) + " has "@ + decimal(locations.len())
                + " source identity locations; expected exactly one"@,
        )
    } else {
        Ok(locations[0])
    }
}

/// Finds the one place that an identity comes from.
pub fn plan_identity(tree: &SourceNode, target: Ref, cancelled: bool) -> (location: Result<
    IdentityLocation,
    SourceError,
>)
    ensures
        match planned(*tree, target, cancelled) {
            Ok(expected) => location matches Ok(location) && location@ == expected,
            Err(text) => location matches Err(error) && error.message@ == text,
        },
{
    if cancelled {
        return Err(cancelled_error());
    }
    let mut found: Vec<IdentityLocation> = Vec::new();
    let route: Vec<String> = Vec::new();
    find_identity_locations(tree, &route, target, &mut found);
    let ghost locations = node_locations(*tree, Seq::empty(), target);
    proof {
        assert(texts(route@) =~= Seq::empty());
        assert(location_views(found@) =~= locations);
        assert(found@.len() == locations.len());
    }
    if found.len() != 1 {
        let mut message: String = joined("mapped reference target ", ref_text(target).as_str());
        message.append(" has ");
        message.append(decimal_text(found.len() as u64).as_str());
        message.append(" source identity locations; expected exactly one");
        return Err(refused(message));
    }
    proof {
        assert(location_views(found@)[0] == found@[0]@);
    }
    let location: IdentityLocation = found.remove(0);
    Ok(location)
}

/// A place that needs nothing written.
pub open spec fn is_settled(location: LocationView) -> bool {
    location is Persisted || location is StableLinked
}

/// Nothing has to be written for any of the places.
pub fn all_settled(locations: &Vec<IdentityLocation>) -> (settled: bool)
    ensures
        settled == (forall|k: int| 0 <= k < locations@.len() ==> is_settled(#[trigger] locations@[k]@)),
{
    let mut at: usize = 0;
    while at < locations.len()
        invariant
            at <= locations@.len(),
            forall|k: int| 0 <= k < at ==> is_settled(#[trigger] locations@[k]@),
        decreases locations@.len() - at,
    {
        match &locations[at] {
            IdentityLocation::Persisted => {},
            IdentityLocation::StableLinked => {},
            _ => {
                proof {
                    assert(!is_settled(locations@[at as int]@));
                }
                return false;
            },
        }
        at = at + 1;
    }
    true
}

// ---------------------------------------------------------------------------
// Nodes of a project document

/// The node at a route below another.
pub open spec fn node_at(fields: Fields, route: Seq<Seq<char>>) -> Option<Fields>
    decreases route.len(),
{
    if route.len() == 0 {
        Some(fields)
    } else {
        match field(fields, route[0]) {
            Some(JsonView::Object(below)) => node_at(below, route.skip(1)),
            _ => None,
        }
    }
}

/// The tree of a project document.
pub open spec fn tree_of_document(document: JsonView) -> Option<Fields> {
    match document {
        JsonView::Object(fields) => match field(fields, "tree"@) {
            Some(JsonView::Object(tree)) => Some(tree),
            _ => None,
        },
        _ => None,
    }
}

/// The node of a project document at a route, or why it is not there.
pub open spec fn project_node(document: JsonView, route: Seq<Seq<char>>) -> Result<Fields, Seq<char>> {
    match tree_of_document(document) {
        Some(tree) => match node_at(tree, route) {
            Some(node) => Ok(node),
            None => Err("project route "@ + separated(route, "."@) + " is missing"@),
        },
        None => Err("project is missing tree"@),
    }
}

/// Finds the node of a project document at a route below its tree.
pub fn find_project_node<'a>(document: &'a Json, route: &Vec<String>) -> (node: Result<
    &'a Vec<JsonField>,
    SourceError,
>)
    ensures
        match project_node(json_view(*document), texts(route@)) {
            Ok(expected) => node matches Ok(node) && object_view(node@) == expected,
            Err(text) => node matches Err(error) && error.message@ == text,
        },
{
    let fields: &Vec<JsonField> = match document {
        Json::Object(fields) => fields,
        _ => {
            return Err(refused("project is missing tree".to_owned()));
        },
    };
    let tree: &Vec<JsonField> = match find_field(fields, "tree") {
        Some(value) => match value {
            Json::Object(tree) => tree,
            _ => {
                return Err(refused("project is missing tree".to_owned()));
            },
        },
        None => {
            return Err(refused("project is missing tree".to_owned()));
        },
    };
    let ghost whole = texts(route@);
    let ghost held = object_view(tree@);
    let mut node: &Vec<JsonField> = tree;
    let mut at: usize = 0;
    proof {
        assert(whole.skip(0) =~= whole);
    }
    while at < route.len()
        invariant
            at <= route@.len(),
            whole == texts(route@),
            tree_of_document(json_view(*document)) == Some(held),
            node_at(held, whole) == node_at(object_view(node@), whole.skip(at as int)),
        decreases route@.len() - at,
    {
        proof {
            assert(whole.skip(at as int)[0] == route@[at as int]@);
            assert(whole.skip(at as int).skip(1) =~= whole.skip(at + 1));
        }
        let below: Option<&Vec<JsonField>> = match find_field(node, route[at].as_str()) {
            Some(value) => match value {
                Json::Object(below) => Some(below),
                _ => None,
            },
            None => None,
        };
        match below {
            Some(below) => {
                node = below;
            },
            None => {
                let mut message: String = joined("project route ", join(route, ".").as_str());
                message.append(" is missing");
                return Err(refused(message));
            },
        }
        at = at + 1;
    }
    proof {
        assert(whole.skip(whole.len() as int) =~= Seq::empty());
    }
    Ok(node)
}

/// A node with a field set in the node at a route below it.
pub open spec fn edited_at(fields: Fields, route: Seq<Seq<char>>, key: Seq<char>, value: JsonView) -> Fields
    decreases route.len(),
{
    if route.len() == 0 {
        with_field(fields, key, value)
    } else {
        match field(fields, route[0]) {
            Some(JsonView::Object(below)) => with_field(
                fields,
                route[0],
                JsonView::Object(edited_at(below, route.skip(1), key, value)),
            ),
            _ => fields,
        }
    }
}

/// A project document with a field set in the node at a route.
pub open spec fn edited_project(document: JsonView, route: Seq<Seq<char>>, key: Seq<char>, value: JsonView) -> JsonView {
    match (document, tree_of_document(document)) {
        (JsonView::Object(fields), Some(tree)) => JsonView::Object(
            with_field(fields, "tree"@, JsonView::Object(edited_at(tree, route, key, value))),
        ),
        _ => document,
    }
}

/// An edit sets one field of one node: the node at the route has it, and every other
/// field of that node, and of the nodes on the way to it, is kept.
pub proof fn law_edits_set_one_field(
    fields: Fields,
    route: Seq<Seq<char>>,
    key: Seq<char>,
    value: JsonView,
    depth: int,
    other: Seq<char>,
)
    requires
        node_at(fields, route) is Some,
        0 <= depth <= route.len(),
    ensures
        node_at(fields, route.take(depth)) is Some,
        node_at(edited_at(fields, route, key, value), route.take(depth)) is Some,
        depth == route.len() ==> field(
            node_at(edited_at(fields, route, key, value), route)->0,
            key,
        ) == Some(value),
        other != (if depth == route.len() {
            key
        } else {
            route[depth]
        }) ==> field(node_at(edited_at(fields, route, key, value), route.take(depth))->0, other) == field(
            node_at(fields, route.take(depth))->0,
            other,
        ),
    decreases route.len(),
{
    assert(route.take(route.len() as int) =~= route);
    let edited = edited_at(fields, route, key, value);
    if route.len() == 0 {
        lemma_kept_field(fields, key, value, other);
    } else {
        let below = field(fields, route[0])->0->Object_0;
        let rest = route.skip(1);
        let inner = edited_at(below, rest, key, value);
        lemma_kept_field(fields, route[0], JsonView::Object(inner), other);
        if depth == 0 {
            assert(route.take(0) =~= Seq::empty());
        } else {
            assert(route.take(depth)[0] == route[0]);
            assert(route.take(depth).skip(1) =~= rest.take(depth - 1));
            assert(rest.len() > depth - 1 ==> rest[depth - 1] == route[depth]);
            law_edits_set_one_field(below, rest, key, value, depth - 1, other);
        }
    }
}

/// Sets a field in the node at a route below another.
fn edit_at(fields: Vec<JsonField>, route: &Vec<String>, from: usize, key: &str, value: Json) -> (edited: Vec<JsonField>)
    requires
        from <= route@.len(),
        node_at(object_view(fields@), texts(route@).skip(from as int)) is Some,
    ensures
        object_view(edited@) == edited_at(
            object_view(fields@),
            texts(route@).skip(from as int),
            key@,
            json_view(value),
        ),
    decreases route@.len() - from,
{
    let ghost rest = texts(route@).skip(from as int);
    if from == route.len() {
        return put_field(fields, key, value);
    }
    proof {
        assert(rest[0] == route@[from as int]@);
        assert(rest.skip(1) =~= texts(route@).skip(from + 1));
    }
    let ghost before = object_view(fields@);
    let mut fields = fields;
    let name: &str = route[from].as_str();
    let inner: Vec<JsonField> = take_node(&mut fields, name);
    proof {
        assert(object_view(inner@) == field(before, name@)->0->Object_0);
    }
    let below: Vec<JsonField> = edit_at(inner, route, from + 1, key, value);
    let ghost held = object_view(below@);
    let changed: Json = Json::Object(below);
    proof {
        assert(json_view(changed) == JsonView::Object(held));
        let at = field_place(before, name@, 0)->0;
        lemma_found(before, name@, 0);
        lemma_same_place(before, name@, at, JsonView::Null, 0);
        assert(before.update(at, (name@, JsonView::Null)).update(at, (name@, JsonView::Object(held))) =~= before.update(
            at,
            (name@, JsonView::Object(held)),
        ));
    }
    put_field(fields, name, changed)
}

/// Sets a field in the node of a project document at a route.
fn edit_project(document: Json, route: &Vec<String>, key: &str, value: Json) -> (edited: Json)
    requires
        project_node(json_view(document), texts(route@)) is Ok,
    ensures
        json_view(edited) == edited_project(json_view(document), texts(route@), key@, json_view(value)),
{
    let ghost whole = texts(route@);
    proof {
        assert(whole.skip(0) =~= whole);
    }
    match document {
        Json::Object(fields) => {
            let ghost before = object_view(fields@);
            let mut fields = fields;
            let tree: Vec<JsonField> = take_node(&mut fields, "tree");
            let edited: Vec<JsonField> = edit_at(tree, route, 0, key, value);
            let ghost held = object_view(edited@);
            let changed: Json = Json::Object(edited);
            proof {
                assert(json_view(changed) == JsonView::Object(held));
                let at = field_place(before, "tree"@, 0)->0;
                lemma_found(before, "tree"@, 0);
                lemma_same_place(before, "tree"@, at, JsonView::Null, 0);
                assert(before.update(at, ("tree"@, JsonView::Null)).update(at, ("tree"@, JsonView::Object(held)))
                    =~= before.update(at, ("tree"@, JsonView::Object(held))));
            }
            Json::Object(put_field(fields, "tree", changed))
        },
        other => other,
    }
}

// ---------------------------------------------------------------------------
// Paths

/// A path without the separators, and the components that stand for the same
/// directory, at its end.
pub open spec fn without_trail(path: Seq<char>) -> Seq<char>
    decreases path.len(),
{
    if path.len() > 1 && path.last() == '/' {
        without_trail(path.drop_last())
    } else if path.len() > 1 && path.last() == '.' && path[path.len() - 2] == '/' {
        without_trail(path.drop_last())
    } else {
        path
    }
}

/// What stands before the last component of a path.
pub open spec fn before_last(path: Seq<char>) -> Seq<char>
    decreases path.len(),
{
    if path.len() == 0 || path.last() == '/' {
        path
    } else {
        before_last(path.drop_last())
    }
}

/// The directory that a path is in.
pub open spec fn parent_of(path: Seq<char>) -> Seq<char> {
    without_trail(before_last(without_trail(path)))
}

/// The last component of a path.
pub open spec fn last_of(path: Seq<char>) -> Seq<char> {
    let whole = without_trail(path);
    whole.skip(before_last(whole).len() as int)
}

/// A path with forward separators only.
pub open spec fn with_slashes(path: Seq<char>) -> Seq<char> {
    path.map_values(
        |c: char|
            if c == '\\' {
                '/'
            } else {
                c
            },
    )
}

fn trail_start(path: &str, from: usize) -> (len: usize)
    requires
        from <= path@.len(),
    ensures
        len <= from,
        without_trail(path@.take(from as int)) == path@.take(len as int),
{
    let mut len: usize = from;
    while len > 1 && (path.get_char(len - 1) == '/' || (path.get_char(len - 1) == '.' && path.get_char(len - 2) == '/'))
        invariant
            len <= from <= path@.len(),
            without_trail(path@.take(from as int)) == without_trail(path@.take(len as int)),
        decreases len,
    {
        proof {
            let now = path@.take(len as int);
            assert(now.drop_last() =~= path@.take(len - 1));
            assert(now.last() == path@[len - 1]);
            assert(now[now.len() - 2] == path@[len - 2]);
        }
        len = len - 1;
    }
    proof {
        let now = path@.take(len as int);
        if len > 1 {
            assert(now.last() == path@[len - 1]);
            assert(now[now.len() - 2] == path@[len - 2]);
        }
    }
    len
}

fn last_start(path: &str, from: usize) -> (len: usize)
    requires
        from <= path@.len(),
    ensures
        len <= from,
        before_last(path@.take(from as int)) == path@.take(len as int),
{
    let mut len: usize = from;
    while len > 0 && path.get_char(len - 1) != '/'
        invariant
            len <= from <= path@.len(),
            before_last(path@.take(from as int)) == before_last(path@.take(len as int)),
        decreases len,
    {
        proof {
            let now = path@.take(len as int);
            assert(now.drop_last() =~= path@.take(len - 1));
            assert(now.last() == path@[len - 1]);
        }
        len = len - 1;
    }
    proof {
        if len > 0 {
            assert(path@.take(len as int).last() == path@[len - 1]);
        }
    }
    len
}

/// The directory that a path is in, and its last component.
fn split_path(path: &str) -> (parts: (String, String))
    ensures
        parts.0@ == parent_of(path@),
        parts.1@ == last_of(path@),
{
    let len: usize = path.unicode_len();
    proof {
        assert(path@.take(len as int) =~= path@);
    }
    let end: usize = trail_start(path, len);
    let start: usize = last_start(path, end);
    proof {
        assert(path@.take(end as int).take(start as int) =~= path@.take(start as int));
    }
    let stop: usize = trail_start(path, start);
    let directory: String = path.substring_char(0, stop).to_owned();
    let name: String = path.substring_char(start, end).to_owned();
    proof {
        assert(directory@ =~= path@.take(stop as int));
        let whole = without_trail(path@);
        assert(before_last(whole).len() == start);
        assert(name@ =~= whole.skip(start as int));
    }
    (directory, name)
}

fn turn_slashes(path: &str) -> (turned: String)
    ensures
        turned@ == with_slashes(path@),
{
    let len: usize = path.unicode_len();
    let mut turned: String = String::new();
    let mut at: usize = 0;
    while at < len
        invariant
            at <= len,
            len == path@.len(),
            turned@ == with_slashes(path@.take(at as int)),
        decreases len - at,
    {
        let c: char = path.get_char(at);
        turned.push(if c == '\\' {
            '/'
        } else {
            c
        });
        proof {
            assert(turned@ =~= with_slashes(path@.take(at + 1)));
        }
        at = at + 1;
    }
    proof {
        assert(path@.take(len as int) =~= path@);
    }
    turned
}

// ---------------------------------------------------------------------------
// What is written

/// What an identity is to be staged with: the bytes of the metadata that its directory
/// has, whether something stands in the place of its script's directory already, and
/// whether the capture was cancelled before.
#[derive(Debug)]
pub struct IdentityRequest {
    pub target: Ref,
    pub location: IdentityLocation,
    pub meta: Option<Vec<u8>>,
    pub occupied: bool,
    pub cancelled: bool,
}

#[verifier::ext_equal]
pub struct RequestView {
    pub target: Ref,
    pub location: LocationView,
    pub meta: Option<Seq<u8>>,
    pub occupied: bool,
    pub cancelled: bool,
}

impl View for IdentityRequest {
    type V = RequestView;

    open spec fn view(&self) -> RequestView {
        RequestView {
            target: self.target,
            location: self.location@,
            meta: match self.meta {
                Some(bytes) => Some(bytes@),
                None => None,
            },
            occupied: self.occupied,
            cancelled: self.cancelled,
        }
    }
}

/// What is to be written for an identity.
#[derive(Debug)]
pub enum StagedIdentity {
    Nothing,
    /// The metadata of a directory becomes a document with the identity.
    Meta { staged: String, directory: String, document: Json },
    /// A node of the project gets the identity.
    Project { route: Vec<String>, id: String },
    /// A script moves into a directory of its own whose metadata has the identity, and
    /// its file is retired; the node of the project that maps the file then maps the
    /// directory.
    Script {
        staged: String,
        path: String,
        directory: String,
        init_file: String,
        meta: Json,
        mapping: Option<(Vec<String>, String)>,
    },
}

#[verifier::ext_equal]
pub enum StagedView {
    Nothing,
    Meta { staged: Seq<char>, directory: Seq<char>, document: JsonView },
    Project { route: Seq<Seq<char>>, id: Seq<char> },
    Script {
        staged: Seq<char>,
        path: Seq<char>,
        directory: Seq<char>,
        init_file: Seq<char>,
        meta: JsonView,
        mapping: Option<(Seq<Seq<char>>, Seq<char>)>,
    },
}

impl View for StagedIdentity {
    type V = StagedView;

    open spec fn view(&self) -> StagedView {
        match self {
            StagedIdentity::Nothing => StagedView::Nothing,
            StagedIdentity::Meta { staged, directory, document } => StagedView::Meta {
                staged: staged@,
                directory: directory@,
                document: json_view(*document),
            },
            StagedIdentity::Project { route, id } => StagedView::Project { route: texts(route@), id: id@ },
            StagedIdentity::Script { staged, path, directory, init_file, meta, mapping } => StagedView::Script {
                staged: staged@,
                path: path@,
                directory: directory@,
                init_file: init_file@,
                meta: json_view(*meta),
                mapping: match mapping {
                    Some((route, relative)) => Some((texts(route@), relative@)),
                    None => None,
                },
            },
        }
    }
}

/// The metadata of a directory before it gets an identity: none where there is no file.
pub open spec fn meta_before(meta: Option<Seq<u8>>) -> Result<JsonView, Seq<char>> {
    match meta {
        Some(bytes) => json_parsed(bytes),
        None => Ok(JsonView::Object(Seq::empty())),
    }
}

/// What is written for the identity of a directory.
pub open spec fn staged_directory(index: nat, id: Ref, directory: Seq<char>, meta: Option<Seq<u8>>) -> Result<
    StagedView,
    Seq<char>,
> {
    match meta_before(meta) {
        Err(reason) => Err(reason),
        Ok(JsonView::Object(fields)) => if field(fields, "id"@) is Some {
            Err("mapped directory identity changed while staging "@ + directory)
        } else {
            Ok(
                StagedView::Meta {
                    staged: "identity-"@ + decimal(index) + ".json"@,
                    directory,
                    document: JsonView::Object(with_field(fields, "id"@, JsonView::String(ref_chars(id)))),
                },
            )
        },
        Ok(_) => Err("meta.json must be an object"@),
    }
}

/// What is written for the identity of a node of the project.
pub open spec fn staged_inline(id: Ref, route: Seq<Seq<char>>, document: JsonView) -> Result<StagedView, Seq<char>> {
    match project_node(document, route) {
        Err(text) => Err(text),
        Ok(node) => if field(node, "$id"@) is Some {
            Err("inline identity changed while staging "@ + separated(route, "."@))
        } else {
            Ok(StagedView::Project { route, id: ref_chars(id) })
        },
    }
}

/// The class and the name of a script file, or why it has none.
pub open spec fn script_parts(file: Seq<char>) -> Result<(Seq<char>, Seq<char>), Seq<char>> {
    match script_class_of(file) {
        None => Err("unsupported mapped source file "@ + file),
        Some(class) => match named_script(file, 0) {
            None => Err(
                "unsupported mapped file form "@ + file
                    + "; only Lua/Luau scripts, TOML modules, and meta.json are accepted"@,
            ),
            Some(name) => if name.len() == 0 {
                Err("script file has no Roblox name: "@ + file)
            } else {
                Ok((class, name))
            },
        },
    }
}

/// The directory that a script moves into, or why it has none.
pub open spec fn script_home(path: Seq<char>) -> Result<Seq<char>, Seq<char>> {
    match script_parts(last_of(path)) {
        Err(text) => Err(text),
        Ok((class, name)) => Ok(path_below(parent_of(path), name)),
    }
}

/// The declared path of the directory that a script moves into, by the declared path
/// of the script.
pub open spec fn moved_mapping(relative: Seq<char>, name: Seq<char>) -> Seq<char> {
    with_slashes(path_below(parent_of(relative), name))
}

/// What is written for the identity of a script.
pub open spec fn staged_script(
    index: nat,
    id: Ref,
    path: Seq<char>,
    route: Option<Seq<Seq<char>>>,
    relative: Option<Seq<char>>,
    occupied: bool,
    document: JsonView,
) -> Result<StagedView, Seq<char>> {
    match script_parts(last_of(path)) {
        Err(text) => Err(text),
        Ok((class, name)) => {
            let directory = path_below(parent_of(path), name);
            let staged = |mapping: Option<(Seq<Seq<char>>, Seq<char>)>|
                StagedView::Script {
                    staged: "script-"@ + decimal(index),
                    path,
                    directory,
                    init_file: "init"@ + suffix_of(class),
                    meta: JsonView::Object(seq![("id"@, JsonView::String(ref_chars(id)))]),
                    mapping,
                };
            if occupied {
                Err(
                    "cannot persist mapped script identity because "@ + directory + " already exists"@,
                )
            } else {
                match (route, relative) {
                    (None, None) => Ok(staged(None)),
                    (Some(route), Some(relative)) => match project_node(document, route) {
                        Err(text) => Err(text),
                        Ok(_) => Ok(staged(Some((route, moved_mapping(relative, name))))),
                    },
                    _ => Err("mapped script identity provenance is incomplete"@),
                }
            }
        },
    }
}

/// What is written for an identity, by the place that it comes from and the project
/// document as it is by then.
pub open spec fn staged(index: nat, request: RequestView, document: JsonView) -> Result<StagedView, Seq<char>> {
    if request.cancelled {
        Err(cancelled_text())
    } else {
        match request.location {
            LocationView::Persisted => Ok(StagedView::Nothing),
            LocationView::StableLinked => Ok(StagedView::Nothing),
            LocationView::Directory(path) => staged_directory(index, request.target, path, request.meta),
            LocationView::Inline(route) => staged_inline(request.target, route, document),
            LocationView::ScriptFile { path, route, relative } => staged_script(
                index,
                request.target,
                path,
                route,
                relative,
                request.occupied,
                document,
            ),
        }
    }
}

/// Whether the project document changes.
pub open spec fn edits_project(staged: StagedView) -> bool {
    match staged {
        StagedView::Project { .. } => true,
        StagedView::Script { mapping, .. } => mapping is Some,
        _ => false,
    }
}

/// The project document after what is written for an identity, or why its node is not
/// there.
pub open spec fn edited(document: JsonView, staged: StagedView) -> Result<JsonView, Seq<char>> {
    match staged {
        StagedView::Project { route, id } => match project_node(document, route) {
            Ok(_) => Ok(edited_project(document, route, "$id"@, JsonView::String(id))),
            Err(text) => Err(text),
        },
        StagedView::Script { mapping: Some((route, relative)), .. } => match project_node(document, route) {
            Ok(_) => Ok(edited_project(document, route, "$path"@, JsonView::String(relative))),
            Err(text) => Err(text),
        },
        _ => Ok(document),
    }
}

/// Writes what is staged for an identity into the project document: the identity of a
/// node, or the directory that a node then maps. Every other field is kept.
pub fn edited_document(document: Json, staged: &StagedIdentity) -> (result: Result<Json, SourceError>)
    ensures
        match edited(json_view(document), staged@) {
            Ok(expected) => result matches Ok(result) && json_view(result) == expected,
            Err(text) => result matches Err(error) && error.message@ == text,
        },
{
    match staged {
        StagedIdentity::Project { route, id } => {
            match find_project_node(&document, route) {
                Ok(_) => {},
                Err(error) => {
                    return Err(error);
                },
            }
            Ok(edit_project(document, route, "$id", Json::String(id.clone())))
        },
        StagedIdentity::Script { mapping, .. } => match mapping {
            Some((route, relative)) => {
                match find_project_node(&document, route) {
                    Ok(_) => {},
                    Err(error) => {
                        return Err(error);
                    },
                }
                Ok(edit_project(document, route, "$path", Json::String(relative.clone())))
            },
            None => Ok(document),
        },
        _ => Ok(document),
    }
}

fn split_script(file_name: &str) -> (parts: Result<(&'static str, String), SourceError>)
    ensures
        match script_parts(file_name@) {
            Ok((class, name)) => parts matches Ok(parts) && parts.0@ == class && parts.1@ == name,
            Err(text) => parts matches Err(error) && error.message@ == text,
        },
{
    let class: &'static str = match script_class(file_name) {
        Ok(class) => class,
        Err(error) => {
            let message: String = error.message();
            return Err(refused(message));
        },
    };
    match script_name(file_name) {
        Ok(name) => Ok((class, name)),
        Err(error) => {
            let message: String = error.message();
            Err(refused(message))
        },
    }
}

/// Finds the directory that a script moves into.
pub fn script_directory(path: &str) -> (directory: Result<String, SourceError>)
    ensures
        match script_home(path@) {
            Ok(expected) => directory matches Ok(directory) && directory@ == expected,
            Err(text) => directory matches Err(error) && error.message@ == text,
        },
{
    let (parent, file): (String, String) = split_path(path);
    match split_script(file.as_str()) {
        Ok((_, name)) => Ok(below(parent.as_str(), name.as_str())),
        Err(error) => Err(error),
    }
}

/// Metadata that has an identity and nothing else.
fn identity_meta(id: String) -> (meta: Json)
    ensures
        json_view(meta) == JsonView::Object(seq![("id"@, JsonView::String(id@))]),
{
    let mut fields: Vec<JsonField> = Vec::new();
    let added: JsonField = JsonField { key: "id".to_owned(), value: Json::String(id) };
    proof {
        lemma_object_pushed(fields@, added);
        assert(object_view(fields@) =~= Seq::empty());
        assert(json_view(added.value) == JsonView::String(id@));
    }
    fields.push(added);
    proof {
        assert(object_view(fields@) =~= seq![("id"@, JsonView::String(id@))]);
    }
    Json::Object(fields)
}

/// Says what is written for the identity of a directory.
fn stage_directory(index: usize, target: Ref, path: &String, meta: &Option<Vec<u8>>) -> (result: Result<
    StagedIdentity,
    SourceError,
>)
    ensures
        match staged_directory(
            index as nat,
            target,
            path@,
            match *meta {
                Some(bytes) => Some(bytes@),
                None => None,
            },
        ) {
            Ok(expected) => result matches Ok(result) && result@ == expected,
            Err(text) => result matches Err(error) && error.message@ == text,
        },
{
    let fields: Vec<JsonField> = match meta {
        Some(bytes) => match read_json(bytes.as_slice()) {
            Ok(document) => match document {
                Json::Object(fields) => fields,
                _ => {
                    return Err(refused("meta.json must be an object".to_owned()));
                },
            },
            Err(reason) => {
                return Err(refused(reason));
            },
        },
        None => {
            let fields: Vec<JsonField> = Vec::new();
            proof {
                assert(object_view(fields@) =~= Seq::empty());
            }
            fields
        },
    };
    if find_field(&fields, "id").is_some() {
        return Err(refused(joined("mapped directory identity changed while staging ", path.as_str())));
    }
    let mut staged: String = joined("identity-", decimal_text(index as u64).as_str());
    staged.append(".json");
    let id: Json = Json::String(ref_text(target));
    proof {
        assert(json_view(id) == JsonView::String(ref_chars(target)));
    }
    let document: Json = Json::Object(put_field(fields, "id", id));
    Ok(StagedIdentity::Meta { staged, directory: path.clone(), document })
}

/// Says what is written so that an identity stays. Nothing is changed before all of it
/// joins a commit.
pub fn stage_identity(index: usize, request: &IdentityRequest, document: &Json) -> (result: Result<
    StagedIdentity,
    SourceError,
>)
    ensures
        match staged(index as nat, request@, json_view(*document)) {
            Ok(expected) => result matches Ok(result) && result@ == expected,
            Err(text) => result matches Err(error) && error.message@ == text,
        },
{
    if request.cancelled {
        return Err(cancelled_error());
    }
    match &request.location {
        IdentityLocation::Persisted => Ok(StagedIdentity::Nothing),
        IdentityLocation::StableLinked => Ok(StagedIdentity::Nothing),
        IdentityLocation::Directory(path) => stage_directory(index, request.target, path, &request.meta),
        IdentityLocation::Inline(route) => {
            let node: &Vec<JsonField> = match find_project_node(document, route) {
                Ok(node) => node,
                Err(error) => {
                    return Err(error);
                },
            };
            if find_field(node, "$id").is_some() {
                return Err(refused(joined("inline identity changed while staging ", join(route, ".").as_str())));
            }
            Ok(StagedIdentity::Project { route: copy_texts(route), id: ref_text(request.target) })
        },
        IdentityLocation::ScriptFile { path, route, relative } => {
            let (parent, file): (String, String) = split_path(path.as_str());
            let (class, name): (&'static str, String) = match split_script(file.as_str()) {
                Ok(parts) => parts,
                Err(error) => {
                    return Err(error);
                },
            };
            let directory: String = below(parent.as_str(), name.as_str());
            if request.occupied {
                let mut message: String = joined(
                    "cannot persist mapped script identity because ",
                    directory.as_str(),
                );
                message.append(" already exists");
                return Err(refused(message));
            }
            let mapping: Option<(Vec<String>, String)> = match (route, relative) {
                (None, None) => None,
                (Some(route), Some(relative)) => {
                    match find_project_node(document, route) {
                        Ok(_) => {},
                        Err(error) => {
                            return Err(error);
                        },
                    }
                    let (above, _): (String, String) = split_path(relative.as_str());
                    let moved: String = turn_slashes(below(above.as_str(), name.as_str()).as_str());
                    Some((copy_texts(route), moved))
                },
                _ => {
                    return Err(refused("mapped script identity provenance is incomplete".to_owned()));
                },
            };
            Ok(
                StagedIdentity::Script {
                    staged: joined("script-", decimal_text(index as u64).as_str()),
                    path: path.clone(),
                    directory,
                    init_file: joined("init", script_suffix(class)),
                    meta: identity_meta(ref_text(request.target)),
                    mapping,
                },
            )
        },
    }
}

/// What is written for all identities of a capture, and the project document after it
/// where it changes.
#[derive(Debug)]
pub struct StagedMappedIdentities {
    pub staged: Vec<StagedIdentity>,
    pub project: Option<Json>,
}

/// What staged identities are.
pub open spec fn staged_views(list: Seq<StagedIdentity>) -> Seq<StagedView> {
    list.map_values(|staged: StagedIdentity| staged@)
}

pub open spec fn request_views(list: Seq<IdentityRequest>) -> Seq<RequestView> {
    list.map_values(|request: IdentityRequest| request@)
}

/// What is written for identities, one after the other, and the project document after
/// them. Each is staged against the document that the ones before it leave.
pub open spec fn staged_all(document: JsonView, requests: Seq<RequestView>) -> Result<
    (Seq<StagedView>, JsonView),
    Seq<char>,
>
    decreases requests.len(),
{
    if requests.len() == 0 {
        Ok((Seq::empty(), document))
    } else {
        match staged_all(document, requests.drop_last()) {
            Err(text) => Err(text),
            Ok(before) => match staged(before.0.len(), requests.last(), before.1) {
                Err(text) => Err(text),
                Ok(next) => match edited(before.1, next) {
                    Err(text) => Err(text),
                    Ok(after) => Ok((before.0.push(next), after)),
                },
            },
        }
    }
}

proof fn lemma_staging_stops(document: JsonView, requests: Seq<RequestView>, at: int)
    requires
        0 <= at <= requests.len(),
        staged_all(document, requests.take(at)) is Err,
    ensures
        staged_all(document, requests) == staged_all(document, requests.take(at)),
    decreases requests.len(),
{
    if at == requests.len() {
        assert(requests.take(at) =~= requests);
    } else {
        assert(requests.drop_last().take(at) =~= requests.take(at));
        lemma_staging_stops(document, requests.drop_last(), at);
    }
}

/// What staging the identities of a capture gives, by the bytes of the project document.
pub open spec fn staging_of(bytes: Seq<u8>, requests: Seq<RequestView>) -> Result<(Seq<StagedView>, JsonView), Seq<char>> {
    match json_parsed(bytes) {
        Err(reason) => Err(reason),
        Ok(document) => staged_all(document, requests),
    }
}

/// Says what is written so that the identities of a capture stay: for each of them,
/// and in the project document, whose bytes were held since the project was loaded.
pub fn stage_mapped_identities(project_document: &[u8], requests: &Vec<IdentityRequest>) -> (result: Result<
    StagedMappedIdentities,
    SourceError,
>)
    ensures
        match staging_of(project_document@, request_views(requests@)) {
            Err(text) => result matches Err(error) && error.message@ == text,
            Ok((expected, after)) => result matches Ok(result) && staged_views(result.staged@) == expected && match result.project {
                Some(project) => json_view(project) == after && exists|k: int|
                    0 <= k < expected.len() && edits_project(#[trigger] expected[k]),
                None => forall|k: int| 0 <= k < expected.len() ==> !edits_project(#[trigger] expected[k]),
            },
        },
{
    let mut document: Json = match read_json(project_document) {
        Ok(document) => document,
        Err(reason) => {
            return Err(refused(reason));
        },
    };
    let ghost start = json_view(document);
    let ghost all = request_views(requests@);
    let mut list: Vec<StagedIdentity> = Vec::new();
    let mut changed: bool = false;
    let mut at: usize = 0;
    proof {
        assert(all.take(0) =~= Seq::empty());
        assert(staged_views(list@) =~= Seq::empty());
    }
    while at < requests.len()
        invariant
            at <= requests@.len(),
            list@.len() == at,
            all == request_views(requests@),
            json_parsed(project_document@) == Ok::<JsonView, Seq<char>>(start),
            staged_all(start, all.take(at as int)) == Ok::<(Seq<StagedView>, JsonView), Seq<char>>(
                (staged_views(list@), json_view(document)),
            ),
            changed ==> exists|k: int| 0 <= k < at && edits_project(#[trigger] staged_views(list@)[k]),
            !changed ==> forall|k: int| 0 <= k < at ==> !edits_project(#[trigger] staged_views(list@)[k]),
        decreases requests@.len() - at,
    {
        let ghost before = staged_views(list@);
        proof {
            assert(all.take(at + 1).drop_last() =~= all.take(at as int));
            assert(all.take(at + 1).last() == requests@[at as int]@);
            if staged_all(start, all.take(at + 1)) is Err {
                lemma_staging_stops(start, all, at + 1);
            }
        }
        let next: StagedIdentity = match stage_identity(at, &requests[at], &document) {
            Ok(next) => next,
            Err(error) => {
                return Err(error);
            },
        };
        document = match edited_document(document, &next) {
            Ok(document) => document,
            Err(error) => {
                return Err(error);
            },
        };
        let edits: bool = match &next {
            StagedIdentity::Project { .. } => true,
            StagedIdentity::Script { mapping, .. } => mapping.is_some(),
            _ => false,
        };
        proof {
            assert(edits == edits_project(next@));
        }
        let ghost added = next@;
        list.push(next);
        proof {
            assert(staged_views(list@) =~= before.push(added));
            assert forall|k: int| 0 <= k < at implies staged_views(list@)[k] == #[trigger] before[k] by {}
            if edits {
                assert(edits_project(staged_views(list@)[at as int]));
            } else if changed {
                let k = choose|k: int| 0 <= k < at && edits_project(#[trigger] before[k]);
                assert(edits_project(staged_views(list@)[k]));
            } else {
                assert forall|k: int| 0 <= k < at + 1 implies !edits_project(#[trigger] staged_views(list@)[k]) by {
                    if k < at {
                        assert(!edits_project(before[k]));
                    }
                }
            }
        }
        changed = changed || edits;
        at = at + 1;
    }
    let ghost expected = staged_views(list@);
    let ghost after = json_view(document);
    proof {
        assert(all.take(all.len() as int) =~= all);
        assert(staging_of(project_document@, all) == Ok::<(Seq<StagedView>, JsonView), Seq<char>>((expected, after)));
        if changed {
            let k = choose|k: int| 0 <= k < at && edits_project(#[trigger] expected[k]);
            assert(0 <= k < expected.len() && edits_project(expected[k]));
        }
    }
    let project: Option<Json> = if changed {
        Some(document)
    } else {
        None
    };
    Ok(StagedMappedIdentities { staged: list, project })
}

} // verus!
