//! The documents of new projects.

use crate::extraction::ExtractionEntry;
use crate::identity_staging::node_at;
use crate::json_view::{
    field, field_place, find_place, json_view, lemma_found, lemma_kept_field, lemma_object_pushed, lemma_object_view,
    lemma_same_place, object_view, put_field, with_field, Fields, JsonView,
};
use crate::manifest_identity::{IdentityError, ManifestIdentityAllocator};
use crate::names::{file_name, is_project_path, refused_name};
use crate::project_document::{
    children_of, foreign, is_own_field, node_of, project_of, Json, JsonField, NodeSpec,
};
use crate::snapshot::{nodes, NodeView, Snapshot};
use crate::source_metadata::{refused, SourceError};
use crate::text::{join, joined, separated, texts};
use crate::Ref;
use vstd::prelude::*;

verus! {

/// The fields of the node under a name: none where there is no such node.
pub open spec fn node_fields(fields: Fields, name: Seq<char>) -> Fields {
    match field_place(fields, name, 0) {
        Some(at) => match fields[at].1 {
            JsonView::Object(inner) => inner,
            _ => Seq::empty(),
        },
        None => Seq::empty(),
    }
}

/// Whether whatever stands on a route is a node.
pub open spec fn is_free(fields: Fields, route: Seq<Seq<char>>) -> bool
    decreases route.len(),
{
    route.len() > 0 ==> {
        &&& field_place(fields, route[0], 0) matches Some(at) ==> fields[at].1 is Object
        &&& is_free(node_fields(fields, route[0]), route.skip(1))
    }
}

/// A node whose descendant on a route maps a path.
pub open spec fn with_mapping(fields: Fields, route: Seq<Seq<char>>, path: Seq<char>) -> Fields
    decreases route.len(),
{
    if route.len() == 0 {
        fields
    } else {
        let inner = node_fields(fields, route[0]);
        let below = if route.len() == 1 {
            with_field(inner, "$path"@, JsonView::String(path))
        } else {
            with_mapping(inner, route.skip(1), path)
        };
        with_field(fields, route[0], JsonView::Object(below))
    }
}

/// What the tree of a project is before anything is mapped.
pub open spec fn root_fields() -> Fields {
    seq![("$className"@, JsonView::String("DataModel"@))]
}

/// The tree of a project that maps what becomes source.
pub open spec fn mapped_tree(entries: Seq<ExtractionEntry>) -> Fields
    decreases entries.len(),
{
    if entries.len() == 0 {
        root_fields()
    } else {
        with_mapping(
            mapped_tree(entries.drop_last()),
            texts(entries.last().route@),
            separated(texts(entries.last().output@), "/"@),
        )
    }
}

/// No route leads through something that is no node.
pub open spec fn routes_free(entries: Seq<ExtractionEntry>) -> bool
    decreases entries.len(),
{
    entries.len() > 0 ==> routes_free(entries.drop_last()) && is_free(
        mapped_tree(entries.drop_last()),
        texts(entries.last().route@),
    )
}

/// The document of a project.
pub open spec fn project_view(name: Seq<char>, tree: Fields) -> JsonView {
    JsonView::Object(seq![("name"@, JsonView::String(name)), ("tree"@, JsonView::Object(tree))])
}

/// Takes the node under a name out of the fields of another.
pub(crate) fn take_node(fields: &mut Vec<JsonField>, name: &str) -> (inner: Vec<JsonField>)
    requires
        field_place(object_view(old(fields)@), name@, 0) matches Some(at) ==> object_view(old(fields)@)[at].1 is Object,
    ensures
        object_view(inner@) == node_fields(object_view(old(fields)@), name@),
        field_place(object_view(old(fields)@), name@, 0) is None ==> final(fields)@ == old(fields)@,
        field_place(object_view(old(fields)@), name@, 0) matches Some(at) ==> object_view(final(fields)@) == object_view(
            old(fields)@,
        ).update(at, (name@, JsonView::Null)),
{
    let ghost before = fields@;
    proof {
        lemma_object_view(before);
    }
    match find_place(fields, name) {
        Some(at) => {
            proof {
                lemma_found(object_view(before), name@, 0);
            }
            let taken: JsonField = fields.remove(at);
            fields.insert(at, JsonField { key: name.to_owned(), value: Json::Null });
            proof {
                lemma_object_view(fields@);
                assert(object_view(fields@) =~= object_view(before).update(at as int, (name@, JsonView::Null)));
                assert(object_view(before)[at as int].1 == json_view(before[at as int].value));
            }
            match taken.value {
                Json::Object(inner) => inner,
                _ => Vec::new(),
            }
        },
        None => {
            let inner: Vec<JsonField> = Vec::new();
            proof {
                assert(object_view(inner@) =~= Seq::empty());
            }
            inner
        },
    }
}

/// Maps a path at a route below a node.
fn put_mapping(fields: Vec<JsonField>, route: &Vec<String>, from: usize, path: &str) -> (changed: Vec<JsonField>)
    requires
        from <= route@.len(),
        is_free(object_view(fields@), texts(route@).skip(from as int)),
    ensures
        object_view(changed@) == with_mapping(object_view(fields@), texts(route@).skip(from as int), path@),
    decreases route@.len() - from,
{
    let ghost rest = texts(route@).skip(from as int);
    if from == route.len() {
        return fields;
    }
    proof {
        assert(rest[0] == route@[from as int]@);
        assert(rest.skip(1) =~= texts(route@).skip(from + 1));
    }
    let ghost before = object_view(fields@);
    let mut fields = fields;
    let name: &str = route[from].as_str();
    let inner: Vec<JsonField> = take_node(&mut fields, name);
    let below: Vec<JsonField> = if from + 1 == route.len() {
        put_field(inner, "$path", Json::String(path.to_owned()))
    } else {
        put_mapping(inner, route, from + 1, path)
    };
    let ghost held = object_view(below@);
    let value: Json = Json::Object(below);
    proof {
        assert(json_view(value) == JsonView::Object(held));
        match field_place(before, name@, 0) {
            Some(at) => {
                lemma_found(before, name@, 0);
                lemma_same_place(before, name@, at, JsonView::Null, 0);
                assert(before.update(at, (name@, JsonView::Null)).update(at, (name@, JsonView::Object(held)))
                    =~= before.update(at, (name@, JsonView::Object(held))));
            },
            None => {},
        }
    }
    put_field(fields, name, value)
}

fn text_field(key: &str, text: &str) -> (made: JsonField)
    ensures
        made.key@ == key@,
        json_view(made.value) == JsonView::String(text@),
{
    JsonField { key: key.to_owned(), value: Json::String(text.to_owned()) }
}

/// Writes the document of a project that maps what becomes source.
pub fn project_json(name: &str, entries: &Vec<ExtractionEntry>) -> (document: Json)
    requires
        routes_free(entries@),
    ensures
        json_view(document) == project_view(name@, mapped_tree(entries@)),
{
    let mut tree: Vec<JsonField> = Vec::new();
    let root: JsonField = text_field("$className", "DataModel");
    proof {
        lemma_object_pushed(tree@, root);
        assert(object_view(tree@) =~= Seq::empty());
    }
    tree.push(root);
    proof {
        assert(object_view(tree@) =~= root_fields());
        assert(entries@.take(0) =~= Seq::empty());
    }
    let mut at: usize = 0;
    while at < entries.len()
        invariant
            at <= entries@.len(),
            routes_free(entries@),
            object_view(tree@) == mapped_tree(entries@.take(at as int)),
        decreases entries@.len() - at,
    {
        proof {
            lemma_routes_free(entries@, at + 1);
            assert(entries@.take(at + 1).drop_last() =~= entries@.take(at as int));
            assert(entries@.take(at + 1).last() == entries@[at as int]);
            assert(texts(entries@[at as int].route@).skip(0) =~= texts(entries@[at as int].route@));
        }
        tree = put_mapping(tree, &entries[at].route, 0, join(&entries[at].output, "/").as_str());
        at = at + 1;
    }
    proof {
        assert(entries@.take(entries@.len() as int) =~= entries@);
    }
    let mut fields: Vec<JsonField> = Vec::new();
    let named: JsonField = text_field("name", name);
    let ghost held = object_view(tree@);
    let rooted: JsonField = JsonField { key: "tree".to_owned(), value: Json::Object(tree) };
    proof {
        lemma_object_pushed(fields@, named);
        lemma_object_pushed(fields@.push(named), rooted);
        assert(object_view(fields@) =~= Seq::empty());
        assert(json_view(rooted.value) == JsonView::Object(held));
    }
    fields.push(named);
    fields.push(rooted);
    proof {
        assert(object_view(fields@) =~= seq![
            ("name"@, JsonView::String(name@)),
            ("tree"@, JsonView::Object(held)),
        ]);
    }
    Json::Object(fields)
}

proof fn lemma_routes_free(entries: Seq<ExtractionEntry>, count: int)
    requires
        routes_free(entries),
        0 <= count <= entries.len(),
    ensures
        routes_free(entries.take(count)),
    decreases entries.len(),
{
    if count < entries.len() {
        lemma_routes_free(entries.drop_last(), count);
        assert(entries.drop_last().take(count) =~= entries.take(count));
    } else {
        assert(entries.take(count) =~= entries);
    }
}

// ---------------------------------------------------------------------------
// What a new project starts with

/// An object with one field.
pub open spec fn nested(key: Seq<char>, value: JsonView) -> JsonView {
    JsonView::Object(seq![(key, value)])
}

/// A node that maps a path.
pub open spec fn mapping(path: Seq<char>) -> JsonView {
    nested("$path"@, JsonView::String(path))
}

/// The tree that a new project starts with.
pub open spec fn starter_tree() -> Fields {
    seq![
        ("$className"@, JsonView::String("DataModel"@)),
        ("ReplicatedStorage"@, nested("Shared"@, mapping("src/ReplicatedStorage/Shared"@))),
        ("ServerScriptService"@, nested("Server"@, mapping("src/ServerScriptService/Server.server.luau"@))),
        (
            "StarterPlayer"@,
            nested(
                "StarterPlayerScripts"@,
                nested("Client"@, mapping("src/StarterPlayer/StarterPlayerScripts/Client.client.luau"@)),
            ),
        ),
    ]
}

fn nest(key: &str, value: Json) -> (made: Json)
    ensures
        json_view(made) == nested(key@, json_view(value)),
{
    let mut fields: Vec<JsonField> = Vec::new();
    let held: JsonField = JsonField { key: key.to_owned(), value };
    proof {
        lemma_object_pushed(fields@, held);
        assert(object_view(fields@) =~= Seq::empty());
    }
    fields.push(held);
    proof {
        assert(object_view(fields@) =~= seq![(key@, json_view(value))]);
    }
    Json::Object(fields)
}

fn map_path(path: &str) -> (made: Json)
    ensures
        json_view(made) == mapping(path@),
{
    nest("$path", Json::String(path.to_owned()))
}

pub(crate) fn push_value(fields: &mut Vec<JsonField>, key: &str, value: Json)
    ensures
        object_view(final(fields)@) == object_view(old(fields)@).push((key@, json_view(value))),
{
    let added: JsonField = JsonField { key: key.to_owned(), value };
    proof {
        lemma_object_pushed(fields@, added);
    }
    fields.push(added);
}

/// Writes the document that a new project starts with.
pub fn starter_project_json(name: &str) -> (document: Json)
    ensures
        json_view(document) == project_view(name@, starter_tree()),
{
    let mut tree: Vec<JsonField> = Vec::new();
    proof {
        assert(object_view(tree@) =~= Seq::empty());
    }
    push_value(&mut tree, "$className", Json::String("DataModel".to_owned()));
    push_value(&mut tree, "ReplicatedStorage", nest("Shared", map_path("src/ReplicatedStorage/Shared")));
    push_value(&mut tree, "ServerScriptService", nest("Server", map_path("src/ServerScriptService/Server.server.luau")));
    push_value(
        &mut tree,
        "StarterPlayer",
        nest(
            "StarterPlayerScripts",
            nest("Client", map_path("src/StarterPlayer/StarterPlayerScripts/Client.client.luau")),
        ),
    );
    proof {
        assert(object_view(tree@) =~= starter_tree());
    }
    let mut fields: Vec<JsonField> = Vec::new();
    proof {
        assert(object_view(fields@) =~= Seq::empty());
    }
    push_value(&mut fields, "name", Json::String(name.to_owned()));
    push_value(&mut fields, "tree", Json::Object(tree));
    proof {
        assert(object_view(fields@) =~= seq![
            ("name"@, JsonView::String(name@)),
            ("tree"@, JsonView::Object(starter_tree())),
        ]);
    }
    Json::Object(fields)
}

/// A file that a new project starts with.
#[derive(Debug)]
pub struct StarterFile {
    pub path: &'static str,
    pub contents: &'static str,
}

/// The files that a new project starts with: one for each path that it maps.
pub fn starter_files() -> (files: Vec<StarterFile>)
    ensures
        files@.len() == 3,
        files@[0].path@ == "src/ReplicatedStorage/Shared/Example.luau"@,
        files@[0].contents@ == "local Example = {}\n\nreturn Example\n"@,
        files@[1].path@ == "src/ServerScriptService/Server.server.luau"@,
        files@[1].contents@ == "-- Server entry point.\n"@,
        files@[2].path@ == "src/StarterPlayer/StarterPlayerScripts/Client.client.luau"@,
        files@[2].contents@ == "-- Client entry point.\n"@,
{
    let mut files: Vec<StarterFile> = Vec::new();
    files.push(
        StarterFile {
            path: "src/ReplicatedStorage/Shared/Example.luau",
            contents: "local Example = {}\n\nreturn Example\n",
        },
    );
    files.push(
        StarterFile { path: "src/ServerScriptService/Server.server.luau", contents: "-- Server entry point.\n" },
    );
    files.push(
        StarterFile {
            path: "src/StarterPlayer/StarterPlayerScripts/Client.client.luau",
            contents: "-- Client entry point.\n",
        },
    );
    files
}

/// A path as it is shown, and whether something stands there.
#[derive(Debug)]
pub struct Standing {
    pub path: String,
    pub there: bool,
}

/// Where the source of a new project comes from.
#[derive(Clone, Copy, Debug, PartialEq, Eq, Structural)]
pub enum Beginning {
    /// The files that every new project starts with.
    Starter,
    /// The scripts of a place.
    Extraction,
}

impl Beginning {
    /// How the refusal begins where one of the files is there already.
    pub open spec fn words(self) -> Seq<char> {
        match self {
            Beginning::Starter => "starter source path already exists: "@,
            Beginning::Extraction => "extraction output collision: "@,
        }
    }
}

/// The first path at which something stands.
pub open spec fn first_standing(outputs: Seq<Standing>) -> Option<Seq<char>>
    decreases outputs.len(),
{
    if outputs.len() == 0 {
        None
    } else if outputs[0].there {
        Some(outputs[0].path@)
    } else {
        first_standing(outputs.skip(1))
    }
}

/// Why a project may not be made at a path, if it may not: its document, the directory of
/// its data and its source must not be there.
pub open spec fn refused_project(
    project_path: Seq<Seq<char>>,
    project: Standing,
    data: Standing,
    outputs: Seq<Standing>,
    beginning: Beginning,
) -> Option<Seq<char>> {
    if !(file_name(project_path) matches Some(name) && ".carbon.json"@.is_suffix_of(name)) {
        Some("output must be a .carbon.json project"@)
    } else if project.there {
        Some("Carbon project already exists: "@ + project.path@)
    } else if data.there {
        Some("Carbon data directory already exists: "@ + data.path@)
    } else {
        match first_standing(outputs) {
            Some(path) => Some(beginning.words() + path),
            None => None,
        }
    }
}

/// Checks that a project may be made at a path. Where the source is not known yet, no
/// outputs are given.
pub fn admit_new_project(
    project_path: &Vec<String>,
    project: &Standing,
    data: &Standing,
    outputs: &Vec<Standing>,
    beginning: Beginning,
) -> (admitted: Result<(), SourceError>)
    ensures
        match refused_project(texts(project_path@), *project, *data, outputs@, beginning) {
            Some(text) => admitted matches Err(error) && error.message@ == text,
            None => admitted is Ok,
        },
{
    if !is_project_path(project_path) {
        return Err(refused("output must be a .carbon.json project".to_owned()));
    }
    if project.there {
        return Err(refused(joined("Carbon project already exists: ", project.path.as_str())));
    }
    if data.there {
        return Err(refused(joined("Carbon data directory already exists: ", data.path.as_str())));
    }
    let words: &str = match beginning {
        Beginning::Starter => "starter source path already exists: ",
        Beginning::Extraction => "extraction output collision: ",
    };
    let mut at: usize = 0;
    proof {
        assert(outputs@.skip(0) =~= outputs@);
    }
    while at < outputs.len()
        invariant
            at <= outputs@.len(),
            words@ == beginning.words(),
            is_admitted_before(texts(project_path@), *project, *data),
            first_standing(outputs@.skip(at as int)) == first_standing(outputs@),
        decreases outputs@.len() - at,
    {
        proof {
            assert(outputs@.skip(at as int)[0] == outputs@[at as int]);
            assert(outputs@.skip(at as int).skip(1) =~= outputs@.skip(at + 1));
        }
        if outputs[at].there {
            return Err(refused(joined(words, outputs[at].path.as_str())));
        }
        at = at + 1;
    }
    Ok(())
}

/// Nothing but the source of a project can be in its way.
spec fn is_admitted_before(project_path: Seq<Seq<char>>, project: Standing, data: Standing) -> bool {
    &&& file_name(project_path) matches Some(name) && ".carbon.json"@.is_suffix_of(name)
    &&& !project.there
    &&& !data.there
}

/// An instance that holds nothing but others, named after its class.
pub open spec fn bare(id: Ref, class: Seq<char>, children: Seq<NodeView>) -> NodeView {
    NodeView { id, name: class, raw_name: None, class, properties: Map::empty(), children }
}

/// The place that a new project starts with.
pub open spec fn empty_studio(ids: Seq<Ref>) -> NodeView {
    bare(
        ids[0],
        "DataModel"@,
        seq![
            bare(ids[1], "Workspace"@, Seq::empty()),
            bare(ids[2], "ReplicatedStorage"@, Seq::empty()),
            bare(ids[3], "ServerScriptService"@, Seq::empty()),
            bare(ids[4], "ServerStorage"@, Seq::empty()),
            bare(
                ids[5],
                "StarterPlayer"@,
                seq![
                    bare(ids[6], "StarterPlayerScripts"@, Seq::empty()),
                    bare(ids[7], "StarterCharacterScripts"@, Seq::empty()),
                ],
            ),
        ],
    )
}

fn make_bare(id: Ref, class: &str, children: Vec<Snapshot>) -> (made: Snapshot)
    ensures
        made.node() == bare(id, class@, nodes(children@)),
{
    Snapshot::new().with_id(id).with_name(class).with_class(class).with_children(children)
}

fn make_leaf(id: Ref, class: &str) -> (made: Snapshot)
    ensures
        made.node() == bare(id, class@, Seq::empty()),
{
    let none: Vec<Snapshot> = Vec::new();
    proof {
        assert(nodes(none@) =~= Seq::empty());
    }
    make_bare(id, class, none)
}

/// Makes the place that a new project starts with, of identities.
pub fn studio_of(ids: &Vec<Ref>) -> (place: Snapshot)
    requires
        ids@.len() == 8,
    ensures
        place.node() == empty_studio(ids@),
{
    let mut scripts: Vec<Snapshot> = Vec::new();
    scripts.push(make_leaf(ids[6], "StarterPlayerScripts"));
    scripts.push(make_leaf(ids[7], "StarterCharacterScripts"));
    proof {
        assert(nodes(scripts@) =~= seq![
            bare(ids@[6], "StarterPlayerScripts"@, Seq::empty()),
            bare(ids@[7], "StarterCharacterScripts"@, Seq::empty()),
        ]);
    }
    let mut services: Vec<Snapshot> = Vec::new();
    services.push(make_leaf(ids[1], "Workspace"));
    services.push(make_leaf(ids[2], "ReplicatedStorage"));
    services.push(make_leaf(ids[3], "ServerScriptService"));
    services.push(make_leaf(ids[4], "ServerStorage"));
    services.push(make_bare(ids[5], "StarterPlayer", scripts));
    proof {
        assert(nodes(services@) =~= empty_studio(ids@).children);
    }
    make_bare(ids[0], "DataModel", services)
}

/// Makes the place that a new project starts with. Its identities are drawn one after
/// the other and occur in no other place of the allocator.
pub fn empty_studio_snapshot(allocator: &mut ManifestIdentityAllocator) -> (place: Result<Snapshot, IdentityError>)
    requires
        old(allocator).wf(),
    ensures
        final(allocator).wf(),
        old(allocator).at_hand().len() >= 8 ==> (place matches Ok(place) && place.node() == empty_studio(
            old(allocator).at_hand().take(8),
        )),
        old(allocator).at_hand().len() < 8 && old(allocator).pending() is Some ==> place is Err,
        place matches Err(error) ==> error == old(allocator).shortage(),
        place matches Ok(place) ==> exists|ids: Seq<Ref>| #[trigger]
            drawn(*old(allocator), ids) && ids.len() == 8 && place.node() == empty_studio(ids),
{
    let ghost before = *allocator;
    let mut ids: Vec<Ref> = Vec::new();
    let ghost ahead = allocator.at_hand();
    proof {
        assert(ahead.take(0) =~= ids@);
        assert(ahead.skip(0) =~= ahead);
    }
    while ids.len() < 8
        invariant
            before == *old(allocator),
            allocator.wf(),
            ids@.len() <= 8,
            drawn(before, ids@),
            forall|id: u128| #[trigger] allocator.issued(id) <==> before.issued(id) || ids@.contains(id),
            ahead == before.at_hand(),
            allocator.pending() is Some == before.pending() is Some,
            ids@.len() <= ahead.len() ==> ids@ == ahead.take(ids@.len() as int) && allocator.at_hand() == ahead.skip(
                ids@.len() as int,
            ),
            ids@.len() > ahead.len() ==> before.pending() is None,
        decreases 8 - ids@.len(),
    {
        let ghost known = *allocator;
        let ghost listed = ids@;
        match allocator.next() {
            Ok(id) => {
                proof {
                    assert(!known.issued(id));
                    assert(!before.issued(id) && !listed.contains(id));
                    let count = listed.len() as int;
                    if count < ahead.len() {
                        assert(ahead.skip(count)[0] == ahead[count]);
                        assert(ahead.skip(count).skip(1) =~= ahead.skip(count + 1));
                        assert(ahead.take(count + 1) =~= ahead.take(count).push(id));
                    }
                }
                ids.push(id);
                proof {
                    assert forall|other: u128| #[trigger] allocator.issued(other) <==> before.issued(other)
                        || ids@.contains(other) by {
                        assert(known.issued(other) <==> before.issued(other) || listed.contains(other));
                        if listed.contains(other) {
                            assert(ids@[listed.index_of(other)] == other);
                        }
                        if ids@.contains(other) && other != id {
                            assert(listed[ids@.index_of(other)] == other);
                        }
                        assert(ids@[listed.len() as int] == id);
                    }
                    assert forall|i: int, j: int| 0 <= i < j < ids@.len() implies ids@[i] != ids@[j] by {
                        if j == listed.len() {
                            assert(listed[i] == ids@[i]);
                            assert(listed.contains(ids@[i]));
                        } else {
                            assert(listed[i] == ids@[i] && listed[j] == ids@[j]);
                        }
                    }
                    assert forall|k: int| 0 <= k < ids@.len() implies (#[trigger] ids@[k]) != 0 && !before.issued(ids@[k]) by {
                        if k < listed.len() {
                            assert(listed[k] == ids@[k]);
                        }
                    }
                }
            },
            Err(error) => {
                return Err(error);
            },
        }
    }
    Ok(studio_of(&ids))
}

/// Different identities that an allocator has not issued.
pub open spec fn drawn(allocator: ManifestIdentityAllocator, ids: Seq<Ref>) -> bool {
    &&& forall|i: int, j: int| 0 <= i < j < ids.len() ==> ids[i] != ids[j]
    &&& forall|k: int| 0 <= k < ids.len() ==> (#[trigger] ids[k]) != 0 && !allocator.issued(ids[k])
}

// ---------------------------------------------------------------------------
// Reading back what is written

/// A field that a written node may have: a class, a path, or a node under a name.
spec fn plain_field(key: Seq<char>, value: JsonView) -> bool
    decreases value,
{
    if key == "$className"@ || key == "$path"@ {
        value is String
    } else {
        &&& !"$"@.is_prefix_of(key)
        &&& refused_name(key) is None
        &&& value matches JsonView::Object(inner) && plain_fields(inner)
    }
}

spec fn plain_fields(fields: Fields) -> bool
    decreases fields,
{
    fields.len() > 0 ==> plain_fields(fields.drop_last()) && plain_field(fields.last().0, fields.last().1)
}

proof fn lemma_plain_each(fields: Fields)
    ensures
        plain_fields(fields) <==> forall|k: int|
            0 <= k < fields.len() ==> plain_field((#[trigger] fields[k]).0, fields[k].1),
    decreases fields.len(),
{
    if fields.len() > 0 {
        let rest = fields.drop_last();
        lemma_plain_each(rest);
        assert forall|k: int| 0 <= k < rest.len() implies #[trigger] rest[k] == fields[k] by {}
        if plain_fields(fields) {
            assert forall|k: int| 0 <= k < fields.len() implies plain_field((#[trigger] fields[k]).0, fields[k].1) by {
                if k < rest.len() {
                    assert(plain_field(rest[k].0, rest[k].1));
                }
            }
        }
        if forall|k: int| 0 <= k < fields.len() ==> plain_field((#[trigger] fields[k]).0, fields[k].1) {
            assert(plain_field(fields[fields.len() - 1].0, fields[fields.len() - 1].1));
            assert forall|k: int| 0 <= k < rest.len() implies plain_field((#[trigger] rest[k]).0, rest[k].1) by {
                assert(plain_field(fields[k].0, fields[k].1));
            }
        }
    }
}

proof fn lemma_plain_with(fields: Fields, key: Seq<char>, value: JsonView)
    requires
        plain_fields(fields),
        plain_field(key, value),
    ensures
        plain_fields(with_field(fields, key, value)),
{
    let after = with_field(fields, key, value);
    lemma_plain_each(fields);
    lemma_plain_each(after);
    lemma_found(fields, key, 0);
    assert forall|k: int| 0 <= k < after.len() implies plain_field((#[trigger] after[k]).0, after[k].1) by {
        if k < fields.len() {
            assert(plain_field(fields[k].0, fields[k].1));
        }
    }
}

/// Names that a written route may have.
spec fn plain_route(route: Seq<Seq<char>>) -> bool {
    forall|k: int|
        0 <= k < route.len() ==> !"$"@.is_prefix_of(#[trigger] route[k]) && refused_name(route[k]) is None
}

proof fn lemma_dollar(key: Seq<char>)
    ensures
        !"$"@.is_prefix_of(key) ==> key != "$className"@ && key != "$path"@ && key != "$id"@ && key != "$properties"@
            && key != "$attributes"@ && key != "$ignoreUnknownInstances"@,
        "$className"@ != "$path"@,
        "$id"@ != "$path"@ && "$properties"@ != "$path"@ && "$attributes"@ != "$path"@,
        "$id"@ != "$className"@ && "$properties"@ != "$className"@ && "$attributes"@ != "$className"@,
        "$"@.is_prefix_of("$id"@) && "$"@.is_prefix_of("$properties"@) && "$"@.is_prefix_of("$attributes"@),
{
    reveal_strlit("$");
    reveal_strlit("$className");
    reveal_strlit("$path");
    reveal_strlit("$id");
    reveal_strlit("$properties");
    reveal_strlit("$attributes");
    reveal_strlit("$ignoreUnknownInstances");
    assert("$"@ =~= "$className"@.subrange(0, 1));
    assert("$"@ =~= "$path"@.subrange(0, 1));
    assert("$"@ =~= "$id"@.subrange(0, 1));
    assert("$"@ =~= "$properties"@.subrange(0, 1));
    assert("$"@ =~= "$attributes"@.subrange(0, 1));
    assert("$"@ =~= "$ignoreUnknownInstances"@.subrange(0, 1));
    assert("$path"@[1] == 'p' && "$className"@[1] == 'c' && "$id"@[1] == 'i' && "$attributes"@[1] == 'a');
    assert("$properties"@.len() == 11 && "$path"@.len() == 5);
}

/// Mapping a path keeps a tree plain.
proof fn lemma_plain_mapping(fields: Fields, route: Seq<Seq<char>>, path: Seq<char>)
    requires
        plain_fields(fields),
        plain_route(route),
        is_free(fields, route),
    ensures
        plain_fields(with_mapping(fields, route, path)),
    decreases route.len(),
{
    if route.len() > 0 {
        let inner = node_fields(fields, route[0]);
        lemma_dollar(route[0]);
        lemma_plain_each(fields);
        lemma_found(fields, route[0], 0);
        assert(plain_fields(inner)) by {
            match field_place(fields, route[0], 0) {
                Some(at) => {
                    assert(plain_field(fields[at].0, fields[at].1));
                },
                None => {},
            }
        }
        let below = if route.len() == 1 {
            with_field(inner, "$path"@, JsonView::String(path))
        } else {
            with_mapping(inner, route.skip(1), path)
        };
        if route.len() == 1 {
            lemma_plain_with(inner, "$path"@, JsonView::String(path));
        } else {
            assert forall|k: int| 0 <= k < route.skip(1).len() implies !"$"@.is_prefix_of(#[trigger] route.skip(1)[k])
                && refused_name(route.skip(1)[k]) is None by {
                assert(route.skip(1)[k] == route[k + 1]);
            }
            lemma_plain_mapping(inner, route.skip(1), path);
        }
        assert(!"$"@.is_prefix_of(route[0]) && refused_name(route[0]) is None);
        lemma_plain_with(fields, route[0], JsonView::Object(below));
    }
}

/// The path that a node of a document maps.
pub open spec fn written_path(fields: Fields, route: Seq<Seq<char>>) -> Option<JsonView> {
    match node_at(fields, route) {
        Some(node) => field(node, "$path"@),
        None => None,
    }
}

/// After a path is mapped at a route, the node there maps it, and the node at another
/// route maps what it mapped.
proof fn lemma_mapped_path(fields: Fields, route: Seq<Seq<char>>, path: Seq<char>, other: Seq<Seq<char>>)
    requires
        plain_route(route),
        plain_route(other),
        is_free(fields, route),
        route.len() > 0,
    ensures
        written_path(with_mapping(fields, route, path), route) == Some(JsonView::String(path)),
        other != route && written_path(fields, other) is Some ==> written_path(
            with_mapping(fields, route, path),
            other,
        ) == written_path(fields, other),
    decreases route.len(),
{
    let inner = node_fields(fields, route[0]);
    let rest = route.skip(1);
    let below = if route.len() == 1 {
        with_field(inner, "$path"@, JsonView::String(path))
    } else {
        with_mapping(inner, rest, path)
    };
    let after = with_mapping(fields, route, path);
    assert forall|k: int| 0 <= k < rest.len() implies !"$"@.is_prefix_of(#[trigger] rest[k]) && refused_name(rest[k]) is None by {
        assert(rest[k] == route[k + 1]);
    }
    lemma_dollar(route[0]);
    assert(!"$"@.is_prefix_of(route[0]));
    lemma_kept_field(fields, route[0], JsonView::Object(below), "$path"@);
    lemma_kept_field(inner, "$path"@, JsonView::String(path), "$path"@);
    if route.len() == 1 {
        assert(rest =~= Seq::empty());
    }
    if other.len() > 0 {
        let others = other.skip(1);
        assert forall|k: int| 0 <= k < others.len() implies !"$"@.is_prefix_of(#[trigger] others[k]) && refused_name(
            others[k],
        ) is None by {
            assert(others[k] == other[k + 1]);
        }
        assert(!"$"@.is_prefix_of(other[0]));
        lemma_dollar(other[0]);
        lemma_kept_field(fields, route[0], JsonView::Object(below), other[0]);
        if other[0] == route[0] {
            assert(field(after, other[0]) == Some(JsonView::Object(below)));
            assert(written_path(after, other) == written_path(below, others));
            if written_path(fields, other) is Some {
                assert(field(fields, other[0]) == Some(JsonView::Object(inner)));
                assert(written_path(fields, other) == written_path(inner, others));
            }
            assert(others == rest ==> other == route) by {
                if others == rest {
                    assert(other =~= seq![other[0]] + others);
                    assert(route =~= seq![route[0]] + rest);
                }
            }
            if route.len() > 1 {
                lemma_mapped_path(inner, rest, path, others);
            } else if others.len() > 0 {
                lemma_dollar(others[0]);
                assert(!"$"@.is_prefix_of(others[0]));
                lemma_kept_field(inner, "$path"@, JsonView::String(path), others[0]);
                assert(field(below, others[0]) == field(inner, others[0]));
                assert(written_path(below, others) == written_path(inner, others));
            } else {
                assert(others =~= rest);
            }
        } else {
            assert(field(after, other[0]) == field(fields, other[0]));
            assert(written_path(after, other) == written_path(fields, other));
        }
    } else {
        assert(written_path(after, other) == field(after, "$path"@));
        assert(written_path(fields, other) == field(fields, "$path"@));
    }
    if route.len() > 1 {
        lemma_mapped_path(inner, rest, path, rest);
    }
}

/// The first child of a read node that has a name.
pub open spec fn child_named(children: Seq<(Seq<char>, NodeSpec)>, name: Seq<char>) -> Option<NodeSpec>
    decreases children.len(),
{
    if children.len() == 0 {
        None
    } else {
        match child_named(children.drop_last(), name) {
            Some(found) => Some(found),
            None => if children.last().0 == name {
                Some(children.last().1)
            } else {
                None
            },
        }
    }
}

/// The node at a route below a read node.
pub open spec fn read_at(node: NodeSpec, route: Seq<Seq<char>>) -> Option<NodeSpec>
    decreases route.len(),
{
    if route.len() == 0 {
        Some(node)
    } else {
        match child_named(node.children, route[0]) {
            Some(child) => read_at(child, route.skip(1)),
            None => None,
        }
    }
}

proof fn lemma_field_last(fields: Fields, key: Seq<char>)
    requires
        fields.len() > 0,
    ensures
        field(fields, key) == (match field(fields.drop_last(), key) {
            Some(value) => Some(value),
            None => if fields.last().0 == key {
                Some(fields.last().1)
            } else {
                None
            },
        }),
{
    let rest = fields.drop_last();
    lemma_found(fields, key, 0);
    lemma_found(rest, key, 0);
    assert forall|k: int| 0 <= k < rest.len() implies #[trigger] rest[k] == fields[k] by {}
    match field_place(rest, key, 0) {
        Some(at) => {
            assert(fields[at].0 == key);
            let now = field_place(fields, key, 0)->0;
            assert(now <= at);
            assert(rest[now].0 == key);
        },
        None => {
            if let Some(now) = field_place(fields, key, 0) {
                if now < rest.len() {
                    assert(rest[now].0 == key);
                }
            } else {
                assert(fields[fields.len() - 1].0 != key);
            }
        },
    }
}

/// Plain fields are read: a node under a name becomes the child of that name.
proof fn lemma_plain_children(fields: Fields, location: Seq<char>)
    requires
        plain_fields(fields),
    ensures
        children_of(fields, location, false) is Ok,
        forall|name: Seq<char>|
            !"$"@.is_prefix_of(name) ==> match field(fields, name) {
                Some(value) => node_of(value, location + "."@ + name, false) is Ok && #[trigger] child_named(
                    children_of(fields, location, false)->Ok_0,
                    name,
                ) == Some(node_of(value, location + "."@ + name, false)->Ok_0),
                None => child_named(children_of(fields, location, false)->Ok_0, name) is None,
            },
    decreases fields,
{
    if fields.len() > 0 {
        let rest = fields.drop_last();
        let key = fields.last().0;
        lemma_plain_children(rest, location);
        lemma_dollar(key);
        assert(plain_field(key, fields.last().1));
        let before = children_of(rest, location, false)->Ok_0;
        if !is_own_field(key, false) {
            lemma_plain_node(fields.last().1, location + "."@ + key);
            let node = node_of(fields.last().1, location + "."@ + key, false)->Ok_0;
            assert(before.push((key, node)).drop_last() =~= before);
            assert(children_of(fields, location, false)->Ok_0 == before.push((key, node)));
        } else {
            assert(children_of(fields, location, false)->Ok_0 == before);
        }
        let whole = children_of(fields, location, false)->Ok_0;
        assert forall|name: Seq<char>| !"$"@.is_prefix_of(name) implies match field(fields, name) {
            Some(value) => node_of(value, location + "."@ + name, false) is Ok && #[trigger] child_named(
                children_of(fields, location, false)->Ok_0,
                name,
            ) == Some(node_of(value, location + "."@ + name, false)->Ok_0),
            None => child_named(children_of(fields, location, false)->Ok_0, name) is None,
        } by {
            lemma_field_last(fields, name);
            lemma_dollar(name);
            assert(match field(rest, name) {
                Some(value) => node_of(value, location + "."@ + name, false) is Ok && child_named(before, name) == Some(
                    node_of(value, location + "."@ + name, false)->Ok_0,
                ),
                None => child_named(before, name) is None,
            });
            if !is_own_field(key, false) {
                assert(whole.drop_last() =~= before);
                assert(whole.last().0 == key);
            }
        }
    } else {
        assert forall|name: Seq<char>| field(fields, name) is None by {
            lemma_found(fields, name, 0);
        }
    }
}

proof fn lemma_plain_node(value: JsonView, location: Seq<char>)
    requires
        value matches JsonView::Object(fields) && plain_fields(fields),
    ensures
        node_of(value, location, false) is Ok,
        node_of(value, location, false)->Ok_0.children == children_of(value->Object_0, location, false)->Ok_0,
        (match field(value->Object_0, "$path"@) {
            Some(path) => path is String && node_of(value, location, false)->Ok_0.declared.path == Some(path->String_0),
            None => node_of(value, location, false)->Ok_0.declared.path is None,
        }),
    decreases value,
{
    let fields = value->Object_0;
    lemma_plain_children(fields, location);
    lemma_plain_each(fields);
    lemma_dollar("$id"@);
    lemma_found(fields, "$className"@, 0);
    lemma_found(fields, "$path"@, 0);
    lemma_found(fields, "$id"@, 0);
    lemma_found(fields, "$properties"@, 0);
    lemma_found(fields, "$attributes"@, 0);
    if let Some(at) = field_place(fields, "$className"@, 0) {
        assert(plain_field(fields[at].0, fields[at].1));
    }
    if let Some(at) = field_place(fields, "$path"@, 0) {
        assert(plain_field(fields[at].0, fields[at].1));
    }
    if let Some(at) = field_place(fields, "$id"@, 0) {
        assert(plain_field(fields[at].0, fields[at].1));
    }
    if let Some(at) = field_place(fields, "$properties"@, 0) {
        assert(plain_field(fields[at].0, fields[at].1));
    }
    if let Some(at) = field_place(fields, "$attributes"@, 0) {
        assert(plain_field(fields[at].0, fields[at].1));
    }
}

/// The node at a route of plain fields is read with its path.
proof fn lemma_plain_read(fields: Fields, location: Seq<char>, route: Seq<Seq<char>>, path: Seq<char>)
    requires
        plain_fields(fields),
        plain_route(route),
        written_path(fields, route) == Some(JsonView::String(path)),
    ensures
        node_of(JsonView::Object(fields), location, false) is Ok,
        read_at(node_of(JsonView::Object(fields), location, false)->Ok_0, route) matches Some(node)
            && node.declared.path == Some(path),
    decreases route.len(),
{
    lemma_plain_node(JsonView::Object(fields), location);
    if route.len() > 0 {
        let rest = route.skip(1);
        assert forall|k: int| 0 <= k < rest.len() implies !"$"@.is_prefix_of(#[trigger] rest[k]) && refused_name(rest[k]) is None by {
            assert(rest[k] == route[k + 1]);
        }
        lemma_plain_children(fields, location);
        assert(!"$"@.is_prefix_of(route[0]));
        let node = node_of(JsonView::Object(fields), location, false)->Ok_0;
        assert(child_named(node.children, route[0]) == child_named(
            children_of(fields, location, false)->Ok_0,
            route[0],
        ));
        lemma_plain_each(fields);
        lemma_found(fields, route[0], 0);
        let at = field_place(fields, route[0], 0)->0;
        assert(plain_field(fields[at].0, fields[at].1));
        lemma_dollar(route[0]);
        let inner = field(fields, route[0])->0->Object_0;
        lemma_plain_read(inner, location + "."@ + route[0], rest, path);
    }
}

/// Routes that a project document can hold: they differ, and their names are names of
/// instances that no field of a node itself has.
pub open spec fn can_be_written(entries: Seq<ExtractionEntry>) -> bool {
    &&& routes_free(entries)
    &&& forall|k: int|
        0 <= k < entries.len() ==> (#[trigger] entries[k]).route@.len() > 0 && forall|c: int|
            0 <= c < entries[k].route@.len() ==> !"$"@.is_prefix_of(#[trigger] texts(entries[k].route@)[c])
                && refused_name(texts(entries[k].route@)[c]) is None
    &&& forall|i: int, j: int|
        0 <= i < j < entries.len() ==> texts((#[trigger] entries[i]).route@) != texts((#[trigger] entries[j]).route@)
}

proof fn lemma_written_tree(entries: Seq<ExtractionEntry>, count: int)
    requires
        can_be_written(entries),
        0 <= count <= entries.len(),
    ensures
        plain_fields(mapped_tree(entries.take(count))),
        forall|k: int|
            0 <= k < count ==> written_path(mapped_tree(entries.take(count)), texts((#[trigger] entries[k]).route@))
                == Some(JsonView::String(separated(texts(entries[k].output@), "/"@))),
    decreases count,
{
    let taken = entries.take(count);
    if count == 0 {
        let root = root_fields();
        assert(root.drop_last() =~= Seq::empty());
        assert(plain_fields(root.drop_last()));
        assert(root.last() == ("$className"@, JsonView::String("DataModel"@)));
        assert(plain_field("$className"@, JsonView::String("DataModel"@)));
        assert(mapped_tree(taken) == root);
    } else {
        let before = entries.take(count - 1);
        lemma_written_tree(entries, count - 1);
        lemma_routes_free(entries, count);
        assert(taken.drop_last() =~= before);
        assert(taken.last() == entries[count - 1]);
        let last = entries[count - 1];
        let route = texts(last.route@);
        let path = separated(texts(last.output@), "/"@);
        let tree = mapped_tree(before);
        assert(last.route@.len() > 0);
        assert(plain_route(route));
        lemma_plain_mapping(tree, route, path);
        assert forall|k: int| 0 <= k < count implies written_path(mapped_tree(taken), texts((#[trigger] entries[k]).route@))
            == Some(JsonView::String(separated(texts(entries[k].output@), "/"@))) by {
            let other = texts(entries[k].route@);
            assert(plain_route(other));
            lemma_mapped_path(tree, route, path, other);
            if k < count - 1 {
                assert(texts(entries[k].route@) != texts(entries[count - 1].route@));
            }
        }
    }
}

/// A project that is written is read back: under its name, and with every mapping at its
/// route.
pub proof fn law_written_projects_are_read_back(name: Seq<char>, entries: Seq<ExtractionEntry>)
    requires
        name.len() > 0,
        can_be_written(entries),
    ensures
        project_of(project_view(name, mapped_tree(entries))) matches Ok((read, tree)) && read == name && forall|k: int|
            0 <= k < entries.len() ==> (read_at(tree, texts((#[trigger] entries[k]).route@)) matches Some(node)
                && node.declared.path == Some(separated(texts(entries[k].output@), "/"@))),
{
    let tree = mapped_tree(entries);
    lemma_written_tree(entries, entries.len() as int);
    assert(entries.take(entries.len() as int) =~= entries);
    let fields = seq![("name"@, JsonView::String(name)), ("tree"@, JsonView::Object(tree))];
    assert(project_view(name, tree) == JsonView::Object(fields));
    assert("name"@ != "tree"@) by {
        reveal_strlit("name");
        reveal_strlit("tree");
        assert("name"@[0] == 'n' && "tree"@[0] == 't');
    }
    let first = fields.drop_last();
    assert(first =~= seq![("name"@, JsonView::String(name))]);
    assert(first.drop_last() =~= Seq::empty());
    assert(foreign(first.drop_last()) is None);
    assert(foreign(first) is None);
    assert(foreign(fields) is None);
    reveal_with_fuel(field_place, 3);
    assert(field(fields, "name"@) == Some(JsonView::String(name)));
    assert(field(fields, "tree"@) == Some(JsonView::Object(tree)));
    lemma_plain_node(JsonView::Object(tree), "tree"@);
    assert forall|k: int| 0 <= k < entries.len() implies (read_at(
        node_of(JsonView::Object(tree), "tree"@, false)->Ok_0,
        texts((#[trigger] entries[k]).route@),
    ) matches Some(node) && node.declared.path == Some(separated(texts(entries[k].output@), "/"@))) by {
        let route = texts(entries[k].route@);
        assert(plain_route(route));
        lemma_plain_read(tree, "tree"@, route, separated(texts(entries[k].output@), "/"@));
    }
}

} // verus!
