//! Project documents: the tree of mapped nodes that a project declares.

use crate::json_view::{
    copy_fields, copy_json, field, find_field, json_parsed, json_view, lemma_object_view, object_view, read_json,
    Fields, JsonView,
};
use crate::names::{refused_name, trimmed, validate_explicit_id, validate_instance_name, NameError};
use crate::text::{joined, optional_text, starts_with};
use vstd::prelude::*;
use vstd::string::StringSliceAdditionalSpecFns;

verus! {

/// A JSON value. Numbers are carried by their text.
#[derive(Debug)]
pub enum Json {
    Null,
    Bool(bool),
    Number(String),
    String(String),
    Array(Vec<Json>),
    Object(Vec<JsonField>),
}

/// A field of a JSON object.
#[derive(Debug)]
pub struct JsonField {
    pub key: String,
    pub value: Json,
}

/// Why a document is refused.
#[derive(Debug)]
pub enum DocumentError {
    /// What was read, and why it is not JSON.
    NotJson { what: String, reason: String },
    NotAnObject(String),
    Unsupported(String),
    Missing(String),
    NotAString(String),
    EmptyName,
    NotAnObjectField(String),
    NotABoolean(String),
    UnsupportedField { field: String, location: String, nested: bool },
    NestedTreeMissing(String),
    Name(NameError),
    PathForm,
    OptionalMissing,
    OptionalNotAString,
    OptionalFields,
    MetaField(String),
}

impl DocumentError {
    pub open spec fn text(self) -> Seq<char> {
        match self {
            DocumentError::NotJson { what, reason } => what@ + ": "@ + reason@,
            DocumentError::NotAnObject(what) => what@ + " must be an object"@,
            DocumentError::Unsupported(field) => "unsupported project field "@ + field@,
            DocumentError::Missing(field) => "project is missing "@ + field@,
            DocumentError::NotAString(field) => field@ + " must be a string"@,
            DocumentError::EmptyName => "project name may not be empty"@,
            DocumentError::NotAnObjectField(field) => field@ + " must be an object"@,
            DocumentError::NotABoolean(field) => field@ + " must be a boolean"@,
            DocumentError::UnsupportedField { field, location, nested } => "unsupported "@ + node_word(nested)
                + " field "@ + field@ + " at "@ + location@,
            DocumentError::NestedTreeMissing(path) => "nested Rojo project "@ + path@ + " is missing tree"@,
            DocumentError::Name(error) => error.text(),
            DocumentError::PathForm =>
                "nested Rojo $path must be a string or an object containing optional"@,
            DocumentError::OptionalMissing => "nested Rojo optional $path is missing optional"@,
            DocumentError::OptionalNotAString => "nested Rojo optional $path must be a string"@,
            DocumentError::OptionalFields => "nested Rojo optional $path contains unsupported fields"@,
            DocumentError::MetaField(field) => "unsupported meta.json field "@ + field@,
        }
    }

    pub fn message(&self) -> (message: String)
        ensures
            message@ == self.text(),
    {
        match self {
            DocumentError::NotJson { what, reason } => joined(joined(what.as_str(), ": ").as_str(), reason.as_str()),
            DocumentError::NotAnObject(what) => joined(what.as_str(), " must be an object"),
            DocumentError::Unsupported(field) => joined("unsupported project field ", field.as_str()),
            DocumentError::Missing(field) => joined("project is missing ", field.as_str()),
            DocumentError::NotAString(field) => joined(field.as_str(), " must be a string"),
            DocumentError::EmptyName => "project name may not be empty".to_owned(),
            DocumentError::NotAnObjectField(field) => joined(field.as_str(), " must be an object"),
            DocumentError::NotABoolean(field) => joined(field.as_str(), " must be a boolean"),
            DocumentError::UnsupportedField { field, location, nested } => {
                let mut message: String = joined("unsupported ", name_node(*nested));
                message.append(" field ");
                message.append(field.as_str());
                message.append(" at ");
                message.append(location.as_str());
                message
            },
            DocumentError::NestedTreeMissing(path) => {
                let mut message: String = joined("nested Rojo project ", path.as_str());
                message.append(" is missing tree");
                message
            },
            DocumentError::Name(error) => error.message(),
            DocumentError::PathForm =>
                "nested Rojo $path must be a string or an object containing optional".to_owned(),
            DocumentError::OptionalMissing => "nested Rojo optional $path is missing optional".to_owned(),
            DocumentError::OptionalNotAString => "nested Rojo optional $path must be a string".to_owned(),
            DocumentError::OptionalFields =>
                "nested Rojo optional $path contains unsupported fields".to_owned(),
            DocumentError::MetaField(field) => joined("unsupported meta.json field ", field.as_str()),
        }
    }
}

/// What a node is called.
pub open spec fn node_word(nested: bool) -> Seq<char> {
    if nested {
        "nested Rojo project node"@
    } else {
        "project node"@
    }
}

fn name_node(nested: bool) -> (word: &'static str)
    ensures
        word@ == node_word(nested),
{
    if nested {
        "nested Rojo project node"
    } else {
        "project node"
    }
}

/// A node of a project, as it is declared.
#[derive(Debug)]
pub struct ProjectNode {
    pub class_name: Option<String>,
    pub path: Option<String>,
    pub path_optional: bool,
    pub id: Option<String>,
    pub properties: Option<Vec<JsonField>>,
    pub attributes: Option<Vec<JsonField>>,
    pub children: Vec<ProjectChild>,
}

/// A node under its name.
#[derive(Debug)]
pub struct ProjectChild {
    pub name: String,
    pub node: ProjectNode,
}

/// A project.
#[derive(Debug)]
pub struct Project {
    pub name: String,
    pub tree: ProjectNode,
}

/// What the parts of a node other than its children are.
#[verifier::ext_equal]
pub struct Declared {
    pub class_name: Option<Seq<char>>,
    pub path: Option<Seq<char>>,
    pub path_optional: bool,
    pub id: Option<Seq<char>>,
    pub properties: Option<Fields>,
    pub attributes: Option<Fields>,
}

/// A node as it is declared, with what is below it.
#[verifier::ext_equal]
pub struct NodeSpec {
    pub declared: Declared,
    pub children: Seq<(Seq<char>, NodeSpec)>,
}

/// What fields are, if they are there.
pub open spec fn optional_fields(fields: Option<Vec<JsonField>>) -> Option<Fields> {
    match fields {
        Some(fields) => Some(object_view(fields@)),
        None => None,
    }
}

impl ProjectNode {
    pub open spec fn spec(self) -> NodeSpec
        decreases self,
    {
        NodeSpec {
            declared: Declared {
                class_name: optional_text(self.class_name),
                path: optional_text(self.path),
                path_optional: self.path_optional,
                id: optional_text(self.id),
                properties: optional_fields(self.properties),
                attributes: optional_fields(self.attributes),
            },
            children: Seq::new(
                self.children@.len(),
                |k: int|
                    if 0 <= k < self.children@.len() {
                        (self.children@[k].name@, self.children@[k].node.spec())
                    } else {
                        arbitrary()
                    },
            ),
        }
    }
}

/// A field that is a string, if it is there.
pub open spec fn string_field(fields: Fields, key: Seq<char>) -> Result<Option<Seq<char>>, Seq<char>> {
    match field(fields, key) {
        None => Ok(None),
        Some(JsonView::String(text)) => Ok(Some(text)),
        Some(_) => Err(key + " must be a string"@),
    }
}

fn find_string(fields: &Vec<JsonField>, key: &str) -> (found: Result<Option<String>, DocumentError>)
    ensures
        match string_field(object_view(fields@), key@) {
            Ok(expected) => found matches Ok(found) && optional_text(found) == expected,
            Err(text) => found matches Err(error) && error.text() == text,
        },
{
    match find_field(fields, key) {
        None => Ok(None),
        Some(value) => match value {
            Json::String(text) => Ok(Some(text.clone())),
            _ => Err(DocumentError::NotAString(key.to_owned())),
        },
    }
}

/// A field that is an object, if it is there.
pub open spec fn object_field(fields: Fields, key: Seq<char>) -> Result<Option<Fields>, Seq<char>> {
    match field(fields, key) {
        None => Ok(None),
        Some(JsonView::Object(inner)) => Ok(Some(inner)),
        Some(_) => Err(key + " must be an object"@),
    }
}

fn find_object(fields: &Vec<JsonField>, key: &str) -> (found: Result<Option<Vec<JsonField>>, DocumentError>)
    ensures
        match object_field(object_view(fields@), key@) {
            Ok(expected) => found matches Ok(found) && optional_fields(found) == expected,
            Err(text) => found matches Err(error) && error.text() == text,
        },
{
    match find_field(fields, key) {
        None => Ok(None),
        Some(value) => match value {
            Json::Object(inner) => Ok(Some(copy_fields(inner))),
            _ => Err(DocumentError::NotAnObjectField(key.to_owned())),
        },
    }
}

/// Why an explicit identity is refused.
pub open spec fn refused_id(id: Seq<char>) -> Option<Seq<char>> {
    if trimmed(id).len() == 0 {
        Some("filesystem identity may not be empty"@)
    } else if id != trimmed(id) {
        Some("filesystem identity may not have surrounding whitespace"@)
    } else {
        None
    }
}

/// The path of a node, and whether it may be missing. Only a node of a nested
/// project may say so.
pub open spec fn path_field(fields: Fields, nested: bool) -> Result<(Option<Seq<char>>, bool), Seq<char>> {
    match field(fields, "$path"@) {
        None => Ok((None, false)),
        Some(JsonView::String(path)) => Ok((Some(path), false)),
        Some(JsonView::Object(inner)) if nested => match field(inner, "optional"@) {
            None => Err("nested Rojo optional $path is missing optional"@),
            Some(JsonView::String(path)) => if inner.len() == 1 {
                Ok((Some(path), true))
            } else {
                Err("nested Rojo optional $path contains unsupported fields"@)
            },
            Some(_) => Err("nested Rojo optional $path must be a string"@),
        },
        Some(_) => if nested {
            Err("nested Rojo $path must be a string or an object containing optional"@)
        } else {
            Err("$path"@ + " must be a string"@)
        },
    }
}

fn find_path(fields: &Vec<JsonField>, nested: bool) -> (found: Result<(Option<String>, bool), DocumentError>)
    ensures
        match path_field(object_view(fields@), nested) {
            Ok((path, optional)) => found matches Ok(found) && optional_text(found.0) == path && found.1 == optional,
            Err(text) => found matches Err(error) && error.text() == text,
        },
{
    match find_field(fields, "$path") {
        None => Ok((None, false)),
        Some(value) => match value {
            Json::String(path) => Ok((Some(path.clone()), false)),
            Json::Object(inner) => {
                proof {
                    lemma_object_view(inner@);
                }
                if !nested {
                    return Err(DocumentError::NotAString("$path".to_owned()));
                }
                match find_field(inner, "optional") {
                    None => Err(DocumentError::OptionalMissing),
                    Some(path) => match path {
                        Json::String(path) => if inner.len() == 1 {
                            Ok((Some(path.clone()), true))
                        } else {
                            Err(DocumentError::OptionalFields)
                        },
                        _ => Err(DocumentError::OptionalNotAString),
                    },
                }
            },
            _ => if nested {
                Err(DocumentError::PathForm)
            } else {
                Err(DocumentError::NotAString("$path".to_owned()))
            },
        },
    }
}

/// What a node declares of itself, or why it is refused.
pub open spec fn declared(fields: Fields, nested: bool) -> Result<Declared, Seq<char>> {
    match string_field(fields, "$className"@) {
        Err(text) => Err(text),
        Ok(class_name) => match path_field(fields, nested) {
            Err(text) => Err(text),
            Ok((path, path_optional)) => match string_field(fields, "$id"@) {
                Err(text) => Err(text),
                Ok(id) => if id matches Some(id) && refused_id(id) is Some {
                    Err(refused_id(id->0)->0)
                } else {
                    match object_field(fields, "$properties"@) {
                        Err(text) => Err(text),
                        Ok(properties) => match object_field(fields, "$attributes"@) {
                            Err(text) => Err(text),
                            Ok(attributes) => if nested && (field(fields, "$ignoreUnknownInstances"@) matches Some(value)
                                && !(value is Bool)) {
                                Err("$ignoreUnknownInstances"@ + " must be a boolean"@)
                            } else {
                                Ok(Declared { class_name, path, path_optional, id, properties, attributes })
                            },
                        },
                    }
                },
            },
        },
    }
}

/// A field that says something of the node itself.
pub open spec fn is_own_field(key: Seq<char>, nested: bool) -> bool {
    ||| key == "$className"@
    ||| key == "$path"@
    ||| key == "$id"@
    ||| key == "$properties"@
    ||| key == "$attributes"@
    ||| (nested && key == "$ignoreUnknownInstances"@)
}

fn is_own(key: &str, nested: bool) -> (is: bool)
    ensures
        is == is_own_field(key@, nested),
{
    key.eq("$className") || key.eq("$path") || key.eq("$id") || key.eq("$properties") || key.eq("$attributes") || (nested
        && key.eq("$ignoreUnknownInstances"))
}

/// What a node at a place of a document is.
pub open spec fn node_of(value: JsonView, location: Seq<char>, nested: bool) -> Result<NodeSpec, Seq<char>>
    decreases value,
{
    match value {
        JsonView::Object(fields) => match declared(fields, nested) {
            Err(text) => Err(text),
            Ok(own) => match children_of(fields, location, nested) {
                Err(text) => Err(text),
                Ok(children) => Ok(NodeSpec { declared: own, children }),
            },
        },
        _ => Err(node_word(nested) + " "@ + location + " must be an object"@),
    }
}

/// What is below a node: the fields that say nothing of the node itself, by name.
pub open spec fn children_of(fields: Fields, location: Seq<char>, nested: bool) -> Result<
    Seq<(Seq<char>, NodeSpec)>,
    Seq<char>,
>
    decreases fields,
{
    if fields.len() == 0 {
        Ok(Seq::empty())
    } else {
        let key = fields.last().0;
        match children_of(fields.drop_last(), location, nested) {
            Err(text) => Err(text),
            Ok(before) => if is_own_field(key, nested) {
                Ok(before)
            } else if "$"@.is_prefix_of(key) {
                Err("unsupported "@ + node_word(nested) + " field "@ + key + " at "@ + location)
            } else if refused_name(key) is Some {
                Err(refused_name(key)->0)
            } else {
                match node_of(fields.last().1, location + "."@ + key, nested) {
                    Err(text) => Err(text),
                    Ok(node) => Ok(before.push((key, node))),
                }
            },
        }
    }
}

proof fn lemma_children_fail(fields: Fields, at: int, location: Seq<char>, nested: bool)
    requires
        0 <= at <= fields.len(),
        children_of(fields.take(at), location, nested) is Err,
    ensures
        children_of(fields, location, nested) == children_of(fields.take(at), location, nested),
    decreases fields.len(),
{
    if at == fields.len() {
        assert(fields.take(at) =~= fields);
    } else {
        assert(fields.drop_last().take(at) =~= fields.take(at));
        lemma_children_fail(fields.drop_last(), at, location, nested);
    }
}

/// What named nodes are.
pub open spec fn child_specs(children: Seq<ProjectChild>) -> Seq<(Seq<char>, NodeSpec)> {
    children.map_values(|child: ProjectChild| (child.name@, child.node.spec()))
}

/// Reads a node of a project, or of a project nested in a mapped directory.
pub fn parse_node(value: &Json, location: &str, nested: bool) -> (node: Result<ProjectNode, DocumentError>)
    ensures
        match node_of(json_view(*value), location@, nested) {
            Ok(expected) => node matches Ok(found) && found.spec() == expected,
            Err(text) => node matches Err(error) && error.text() == text,
        },
    decreases value,
{
    let fields: &Vec<JsonField> = match value {
        Json::Object(fields) => fields,
        _ => {
            let mut what: String = joined(name_node(nested), " ");
            what.append(location);
            return Err(DocumentError::NotAnObject(what));
        },
    };
    let class_name: Option<String> = match find_string(fields, "$className") {
        Ok(found) => found,
        Err(error) => {
            return Err(error);
        },
    };
    let (path, path_optional): (Option<String>, bool) = match find_path(fields, nested) {
        Ok(found) => found,
        Err(error) => {
            return Err(error);
        },
    };
    let id: Option<String> = match find_string(fields, "$id") {
        Ok(found) => found,
        Err(error) => {
            return Err(error);
        },
    };
    match &id {
        Some(id) => match validate_explicit_id(id.as_str()) {
            Ok(()) => {},
            Err(error) => {
                return Err(DocumentError::Name(error));
            },
        },
        None => {},
    }
    let properties: Option<Vec<JsonField>> = match find_object(fields, "$properties") {
        Ok(found) => found,
        Err(error) => {
            return Err(error);
        },
    };
    let attributes: Option<Vec<JsonField>> = match find_object(fields, "$attributes") {
        Ok(found) => found,
        Err(error) => {
            return Err(error);
        },
    };
    if nested {
        match find_field(fields, "$ignoreUnknownInstances") {
            Some(ignore) => match ignore {
                Json::Bool(_) => {},
                _ => {
                    return Err(DocumentError::NotABoolean("$ignoreUnknownInstances".to_owned()));
                },
            },
            None => {},
        }
    }
    let mut children: Vec<ProjectChild> = Vec::new();
    let ghost view = object_view(fields@);
    let ghost own = declared(view, nested)->Ok_0;
    let mut at: usize = 0;
    proof {
        lemma_object_view(fields@);
        assert(view.take(0) =~= Seq::empty());
        assert(child_specs(children@) =~= Seq::empty());
    }
    while at < fields.len()
        invariant
            at <= fields@.len(),
            *value == Json::Object(*fields),
            view == object_view(fields@),
            view.len() == fields@.len(),
            forall|k: int|
                0 <= k < fields@.len() ==> #[trigger] view[k] == (fields@[k].key@, json_view(fields@[k].value)),
            declared(view, nested) == Ok::<Declared, Seq<char>>(own),
            own == (Declared {
                class_name: optional_text(class_name),
                path: optional_text(path),
                path_optional,
                id: optional_text(id),
                properties: optional_fields(properties),
                attributes: optional_fields(attributes),
            }),
            children_of(view.take(at as int), location@, nested) == Ok::<Seq<(Seq<char>, NodeSpec)>, Seq<char>>(
                child_specs(children@),
            ),
        decreases fields@.len() - at,
    {
        let key: &String = &fields[at].key;
        proof {
            assert(view.take(at + 1).drop_last() =~= view.take(at as int));
            assert(view.take(at + 1).last() == view[at as int]);
        }
        if !is_own(key.as_str(), nested) {
            if starts_with(key.as_str(), "$") {
                proof {
                    lemma_children_fail(view, at + 1, location@, nested);
                }
                return Err(DocumentError::UnsupportedField { field: key.clone(), location: location.to_owned(), nested });
            }
            match validate_instance_name(key.as_str()) {
                Ok(()) => {},
                Err(error) => {
                    proof {
                        lemma_children_fail(view, at + 1, location@, nested);
                    }
                    return Err(DocumentError::Name(error));
                },
            }
            let below: String = joined(joined(location, ".").as_str(), key.as_str());
            match parse_node(&fields[at].value, below.as_str(), nested) {
                Ok(node) => {
                    let ghost before = child_specs(children@);
                    let ghost spec = node.spec();
                    children.push(ProjectChild { name: key.clone(), node });
                    proof {
                        assert(child_specs(children@) =~= before.push((key@, spec)));
                    }
                },
                Err(error) => {
                    proof {
                        lemma_children_fail(view, at + 1, location@, nested);
                    }
                    return Err(error);
                },
            }
        }
        at = at + 1;
    }
    proof {
        assert(view.take(view.len() as int) =~= view);
    }
    let ghost below = child_specs(children@);
    let node: ProjectNode = ProjectNode {
        class_name,
        path,
        path_optional,
        id,
        properties,
        attributes,
        children,
    };
    proof {
        assert(node.spec().children =~= below);
    }
    Ok(node)
}

/// The name of a project and what it declares, or why its document is refused.
pub open spec fn project_of(value: JsonView) -> Result<(Seq<char>, NodeSpec), Seq<char>> {
    match value {
        JsonView::Object(fields) => match foreign(fields) {
            Some(key) => Err("unsupported project field "@ + key),
            None => match field(fields, "name"@) {
                None => Err("project is missing "@ + "name"@),
                Some(JsonView::String(name)) => if name.len() == 0 {
                    Err("project name may not be empty"@)
                } else {
                    match field(fields, "tree"@) {
                        None => Err("project is missing "@ + "tree"@),
                        Some(tree) => match node_of(tree, "tree"@, false) {
                            Ok(node) => Ok((name, node)),
                            Err(text) => Err(text),
                        },
                    }
                },
                Some(_) => Err("project name"@ + " must be a string"@),
            },
        },
        _ => Err("Carbon project root"@ + " must be an object"@),
    }
}

/// The first field that a project may not have.
pub open spec fn foreign(fields: Fields) -> Option<Seq<char>>
    decreases fields.len(),
{
    if fields.len() == 0 {
        None
    } else {
        match foreign(fields.drop_last()) {
            Some(key) => Some(key),
            None => if fields.last().0 != "name"@ && fields.last().0 != "tree"@ {
                Some(fields.last().0)
            } else {
                None
            },
        }
    }
}

proof fn lemma_foreign(fields: Fields, at: int)
    requires
        0 <= at <= fields.len(),
        foreign(fields.take(at)) is Some,
    ensures
        foreign(fields) == foreign(fields.take(at)),
    decreases fields.len(),
{
    if at == fields.len() {
        assert(fields.take(at) =~= fields);
    } else {
        assert(fields.drop_last().take(at) =~= fields.take(at));
        lemma_foreign(fields.drop_last(), at);
    }
}

/// Reads a project from its document.
pub fn project_from(value: &Json) -> (project: Result<Project, DocumentError>)
    ensures
        match project_of(json_view(*value)) {
            Ok((name, tree)) => project matches Ok(found) && found.name@ == name && found.tree.spec() == tree,
            Err(text) => project matches Err(error) && error.text() == text,
        },
{
    let fields: &Vec<JsonField> = match value {
        Json::Object(fields) => fields,
        _ => {
            return Err(DocumentError::NotAnObject("Carbon project root".to_owned()));
        },
    };
    let ghost view = object_view(fields@);
    let mut at: usize = 0;
    proof {
        lemma_object_view(fields@);
        assert(view.take(0) =~= Seq::empty());
    }
    while at < fields.len()
        invariant
            at <= fields@.len(),
            *value == Json::Object(*fields),
            view == object_view(fields@),
            view.len() == fields@.len(),
            forall|k: int| 0 <= k < fields@.len() ==> (#[trigger] view[k]).0 == fields@[k].key@,
            foreign(view.take(at as int)) is None,
        decreases fields@.len() - at,
    {
        proof {
            assert(view.take(at + 1).drop_last() =~= view.take(at as int));
            assert(view.take(at + 1).last() == view[at as int]);
        }
        if !fields[at].key.as_str().eq("name") && !fields[at].key.as_str().eq("tree") {
            proof {
                lemma_foreign(view, at + 1);
            }
            return Err(DocumentError::Unsupported(fields[at].key.clone()));
        }
        at = at + 1;
    }
    proof {
        assert(view.take(view.len() as int) =~= view);
    }
    let name: String = match find_field(fields, "name") {
        None => {
            return Err(DocumentError::Missing("name".to_owned()));
        },
        Some(name) => match name {
            Json::String(name) => name.clone(),
            _ => {
                return Err(DocumentError::NotAString("project name".to_owned()));
            },
        },
    };
    if name.as_str().unicode_len() == 0 {
        return Err(DocumentError::EmptyName);
    }
    let tree: &Json = match find_field(fields, "tree") {
        Some(tree) => tree,
        None => {
            return Err(DocumentError::Missing("tree".to_owned()));
        },
    };
    match parse_node(tree, "tree", false) {
        Ok(tree) => Ok(Project { name, tree }),
        Err(error) => Err(error),
    }
}

/// The project that the bytes of a file declare, or why they are refused.
pub open spec fn project_read(path: Seq<char>, bytes: Seq<u8>) -> Result<(Seq<char>, NodeSpec), Seq<char>> {
    match json_parsed(bytes) {
        Ok(document) => project_of(document),
        Err(reason) => Err("failed to parse strict JSON project "@ + path + ": "@ + reason),
    }
}

/// Reads a project from the bytes of its file.
pub fn parse_project(path: &str, bytes: &[u8]) -> (project: Result<Project, DocumentError>)
    ensures
        match project_read(path@, bytes@) {
            Ok((name, tree)) => project matches Ok(found) && found.name@ == name && found.tree.spec() == tree,
            Err(text) => project matches Err(error) && error.text() == text,
        },
{
    match read_json(bytes) {
        Ok(document) => project_from(&document),
        Err(reason) => Err(
            DocumentError::NotJson { what: joined("failed to parse strict JSON project ", path), reason },
        ),
    }
}

/// The tree of a project that is nested in a mapped directory, or why its document is
/// refused.
pub open spec fn nested_of(value: JsonView, path: Seq<char>) -> Result<NodeSpec, Seq<char>> {
    match value {
        JsonView::Object(fields) => match field(fields, "tree"@) {
            Some(tree) => node_of(tree, "tree"@, true),
            None => Err("nested Rojo project "@ + path + " is missing tree"@),
        },
        _ => Err("nested Rojo project "@ + path + " must be an object"@),
    }
}

/// Reads the tree of a nested project from its document.
pub fn parse_nested_project(value: &Json, path: &str) -> (tree: Result<ProjectNode, DocumentError>)
    ensures
        match nested_of(json_view(*value), path@) {
            Ok(expected) => tree matches Ok(found) && found.spec() == expected,
            Err(text) => tree matches Err(error) && error.text() == text,
        },
{
    match value {
        Json::Object(fields) => match find_field(fields, "tree") {
            Some(tree) => parse_node(tree, "tree", true),
            None => Err(DocumentError::NestedTreeMissing(path.to_owned())),
        },
        _ => Err(DocumentError::NotAnObject(joined("nested Rojo project ", path))),
    }
}

/// The tree that the bytes of a nested project declare, or why they are refused.
pub open spec fn nested_read(path: Seq<char>, bytes: Seq<u8>) -> Result<NodeSpec, Seq<char>> {
    match json_parsed(bytes) {
        Ok(document) => nested_of(document, path),
        Err(reason) => Err("failed to parse nested Rojo project "@ + path + ": "@ + reason),
    }
}

/// Reads the tree of a nested project from the bytes of its file.
pub fn load_nested_project_tree(path: &str, bytes: &[u8]) -> (tree: Result<ProjectNode, DocumentError>)
    ensures
        match nested_read(path@, bytes@) {
            Ok(expected) => tree matches Ok(found) && found.spec() == expected,
            Err(text) => tree matches Err(error) && error.text() == text,
        },
{
    match read_json(bytes) {
        Ok(document) => parse_nested_project(&document, path),
        Err(reason) => Err(
            DocumentError::NotJson { what: joined("failed to parse nested Rojo project ", path), reason },
        ),
    }
}

/// Whether a node contributes anything of its own to the place: otherwise the
/// place is the artifact alone. The class of the root contributes nothing.
pub open spec fn contributes(node: NodeSpec, root: bool) -> bool
    decreases node,
{
    ||| node.declared.path is Some
    ||| (node.declared.properties matches Some(properties) && properties.len() > 0)
    ||| (node.declared.attributes matches Some(attributes) && attributes.len() > 0)
    ||| node.declared.id is Some
    ||| (!root && node.declared.class_name is Some)
    ||| exists|k: int| 0 <= k < node.children.len() && contributes(#[trigger] node.children[k].1, false)
}

/// Whether a project maps anything.
pub fn is_hybrid(node: &ProjectNode, root: bool) -> (hybrid: bool)
    ensures
        hybrid == contributes(node.spec(), root),
    decreases node,
{
    if node.path.is_some() || node.id.is_some() || (!root && node.class_name.is_some()) {
        return true;
    }
    proof {
        match &node.properties {
            Some(properties) => lemma_object_view(properties@),
            None => {},
        }
        match &node.attributes {
            Some(attributes) => lemma_object_view(attributes@),
            None => {},
        }
    }
    match &node.properties {
        Some(properties) => if properties.len() > 0 {
            return true;
        },
        None => {},
    }
    match &node.attributes {
        Some(attributes) => if attributes.len() > 0 {
            return true;
        },
        None => {},
    }
    let mut at: usize = 0;
    while at < node.children.len()
        invariant
            at <= node.children@.len(),
            forall|k: int| 0 <= k < at ==> !contributes((#[trigger] node.spec().children[k]).1, false),
        decreases node.children@.len() - at,
    {
        if is_hybrid(&node.children[at].node, false) {
            proof {
                assert(contributes(node.spec().children[at as int].1, false));
            }
            return true;
        }
        at = at + 1;
    }
    false
}

/// What the metadata of a directory declares.
#[derive(Debug)]
pub struct Meta {
    pub id: Option<String>,
    pub properties: Option<Json>,
    pub attributes: Option<Json>,
}

/// What metadata declares.
#[verifier::ext_equal]
pub struct MetaView {
    pub id: Option<Seq<char>>,
    pub properties: Option<JsonView>,
    pub attributes: Option<JsonView>,
}

/// What a value is, if it is there.
pub open spec fn optional_json(value: Option<Json>) -> Option<JsonView> {
    match value {
        Some(value) => Some(json_view(value)),
        None => None,
    }
}

impl View for Meta {
    type V = MetaView;

    open spec fn view(&self) -> MetaView {
        MetaView {
            id: optional_text(self.id),
            properties: optional_json(self.properties),
            attributes: optional_json(self.attributes),
        }
    }
}

/// The first field that metadata may not have.
pub open spec fn foreign_meta(fields: Fields) -> Option<Seq<char>>
    decreases fields.len(),
{
    if fields.len() == 0 {
        None
    } else {
        match foreign_meta(fields.drop_last()) {
            Some(key) => Some(key),
            None => {
                let key = fields.last().0;
                if key != "id"@ && key != "properties"@ && key != "attributes"@ {
                    Some(key)
                } else {
                    None
                }
            },
        }
    }
}

/// What the metadata of a directory declares, or why it is refused.
pub open spec fn meta_of(value: JsonView) -> Result<MetaView, Seq<char>> {
    match value {
        JsonView::Object(fields) => match foreign_meta(fields) {
            Some(key) => Err("unsupported meta.json field "@ + key),
            None => {
                let properties = field(fields, "properties"@);
                let attributes = field(fields, "attributes"@);
                match field(fields, "id"@) {
                    None => Ok(MetaView { id: None, properties, attributes }),
                    Some(JsonView::String(id)) => match refused_id(id) {
                        Some(text) => Err(text),
                        None => Ok(MetaView { id: Some(id), properties, attributes }),
                    },
                    Some(_) => Err("meta.json id"@ + " must be a string"@),
                }
            },
        },
        _ => Err("meta.json"@ + " must be an object"@),
    }
}

proof fn lemma_foreign_meta(fields: Fields, at: int)
    requires
        0 <= at <= fields.len(),
        foreign_meta(fields.take(at)) is Some,
    ensures
        foreign_meta(fields) == foreign_meta(fields.take(at)),
    decreases fields.len(),
{
    if at == fields.len() {
        assert(fields.take(at) =~= fields);
    } else {
        assert(fields.drop_last().take(at) =~= fields.take(at));
        lemma_foreign_meta(fields.drop_last(), at);
    }
}

fn copy_found(value: Option<&Json>) -> (copy: Option<Json>)
    ensures
        optional_json(copy) == crate::json_view::viewed(value),
{
    match value {
        Some(value) => Some(copy_json(value)),
        None => None,
    }
}

/// Reads the metadata of a directory from its document.
pub fn meta_from(value: &Json) -> (meta: Result<Meta, DocumentError>)
    ensures
        match meta_of(json_view(*value)) {
            Ok(expected) => meta matches Ok(meta) && meta@ == expected,
            Err(text) => meta matches Err(error) && error.text() == text,
        },
{
    let fields: &Vec<JsonField> = match value {
        Json::Object(fields) => fields,
        _ => {
            return Err(DocumentError::NotAnObject("meta.json".to_owned()));
        },
    };
    let ghost view = object_view(fields@);
    let mut at: usize = 0;
    proof {
        lemma_object_view(fields@);
        assert(view.take(0) =~= Seq::empty());
    }
    while at < fields.len()
        invariant
            at <= fields@.len(),
            *value == Json::Object(*fields),
            view == object_view(fields@),
            view.len() == fields@.len(),
            forall|k: int| 0 <= k < fields@.len() ==> (#[trigger] view[k]).0 == fields@[k].key@,
            foreign_meta(view.take(at as int)) is None,
        decreases fields@.len() - at,
    {
        let key: &str = fields[at].key.as_str();
        proof {
            assert(view.take(at + 1).drop_last() =~= view.take(at as int));
            assert(view.take(at + 1).last() == view[at as int]);
        }
        if !key.eq("id") && !key.eq("properties") && !key.eq("attributes") {
            proof {
                lemma_foreign_meta(view, at + 1);
            }
            return Err(DocumentError::MetaField(fields[at].key.clone()));
        }
        at = at + 1;
    }
    proof {
        assert(view.take(view.len() as int) =~= view);
    }
    let id: Option<String> = match find_field(fields, "id") {
        None => None,
        Some(found) => match found {
            Json::String(id) => {
                match validate_explicit_id(id.as_str()) {
                    Ok(()) => {},
                    Err(error) => {
                        return Err(DocumentError::Name(error));
                    },
                }
                Some(id.clone())
            },
            _ => {
                return Err(DocumentError::NotAString("meta.json id".to_owned()));
            },
        },
    };
    let properties: Option<Json> = copy_found(find_field(fields, "properties"));
    let attributes: Option<Json> = copy_found(find_field(fields, "attributes"));
    Ok(Meta { id, properties, attributes })
}

/// What the bytes of metadata declare, or why they are refused.
pub open spec fn meta_read(path: Seq<char>, bytes: Seq<u8>) -> Result<MetaView, Seq<char>> {
    match json_parsed(bytes) {
        Ok(document) => meta_of(document),
        Err(reason) => Err("failed to parse "@ + path + ": "@ + reason),
    }
}

/// Reads the metadata of a directory from the bytes of its file.
pub fn read_meta(path: &str, bytes: &[u8]) -> (meta: Result<Meta, DocumentError>)
    ensures
        match meta_read(path@, bytes@) {
            Ok(expected) => meta matches Ok(meta) && meta@ == expected,
            Err(text) => meta matches Err(error) && error.text() == text,
        },
{
    match read_json(bytes) {
        Ok(document) => meta_from(&document),
        Err(reason) => Err(DocumentError::NotJson { what: joined("failed to parse ", path), reason }),
    }
}

} // verus!
