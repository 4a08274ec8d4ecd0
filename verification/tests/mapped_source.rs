use std::collections::{BTreeMap, HashMap, HashSet};

use carbon::evaluation::{evaluate_project, reevaluate_projected};
use carbon::identity_locations::{find_identity_locations, IdentityLocation};
use carbon::live_policy::LivePolicy;
use carbon::extraction::{plan_script_extraction, ExtractionEntry};
use carbon::lua::read_script_source;
use carbon::manifest_identity::{IdentityError, ManifestIdentityAllocator};
use carbon::meta_writing::snapshot_meta;
use carbon::names::{identity_ref, resolve_mapped_path};
use carbon::project_diff::{diff_snapshots, SameFrames};
use carbon::project_document::{
    load_nested_project_tree, parse_project, project_from, read_meta, Json, ProjectNode,
};
use carbon::project_routes::{routing_refs, snapshot_refs_for_routes};
use carbon::project_writing::{empty_studio_snapshot, project_json, starter_files, starter_project_json};
use carbon::reflection::{ClassInfo, PropertyInfo, Reflection};
use carbon::snapshot::{AddedSnapshot, Changes, Snapshot, UpdatedSnapshot};
use carbon::source_metadata::{Metadata, SourceError};
use carbon::source_tree::{
    read_directory_instance, sort_entries, EntryKind, NestedProject, Source, SourceChild, SourceDirectory, SourceEntry,
    SourceFile, SourceNode,
};
use carbon::source_writing::{write_mapped_snapshot, SourceWrite};
use carbon::sourcemap::{collect_directory_script_paths, find_script};
use carbon::text_map::{Plain, TextMap};
use carbon::tree::Tree;
use carbon::variant::{AttributeValue, Properties, Variant};
use carbon::watch_roots::linked_watch_root;
use carbon::Ref;

fn properties(entries: Vec<(&str, Variant)>) -> Properties {
    let mut properties = TextMap::new();
    for (name, value) in entries {
        properties.insert(name.to_owned(), value);
    }
    properties
}

fn reflection() -> Reflection {
    let mut known = TextMap::new();
    for name in ["Archivable", "Attributes", "Tags"] {
        known.insert(name.to_owned(), PropertyInfo { restricted: false, serializes: true, reference: false });
    }
    let mut classes = TextMap::new();
    classes.insert(
        "Instance".to_owned(),
        ClassInfo {
            superclass: None,
            service: false,
            properties: known,
            defaults: properties(vec![
                ("Archivable", Variant::boolean(true)),
                ("Attributes", Variant::Attributes(TextMap::new())),
            ]),
        },
    );
    for (name, service) in [
        ("DataModel", false),
        ("Folder", false),
        ("Part", false),
        ("Script", false),
        ("LocalScript", false),
        ("ModuleScript", false),
        ("Workspace", true),
        ("ReplicatedStorage", true),
        ("ServerScriptService", true),
        ("ServerStorage", true),
        ("StarterPlayer", true),
        ("StarterPlayerScripts", false),
    ] {
        let defaults = if name.ends_with("Script") {
            properties(vec![("ScriptGuid", Variant::String(String::new()))])
        } else {
            TextMap::new()
        };
        classes.insert(
            name.to_owned(),
            ClassInfo { superclass: Some("Instance".to_owned()), service, properties: TextMap::new(), defaults },
        );
    }
    Reflection { classes }
}

/// Files by their path; a directory ends in a slash, a link names its target.
struct Disk {
    files: BTreeMap<String, String>,
    links: BTreeMap<String, String>,
}

impl Disk {
    fn new(files: &[(&str, &str)]) -> Disk {
        Disk {
            files: files.iter().map(|(path, text)| (path.to_string(), text.to_string())).collect(),
            links: BTreeMap::new(),
        }
    }

    fn link(mut self, path: &str, target: &str) -> Disk {
        self.links.insert(path.to_owned(), target.to_owned());
        self
    }

    fn target(&self, path: &str) -> String {
        for (link, target) in &self.links {
            if path == link {
                return target.clone();
            }
            if let Some(rest) = path.strip_prefix(&format!("{link}/")) {
                return format!("{target}/{rest}");
            }
        }
        path.to_owned()
    }

    fn is_dir(&self, path: &str) -> bool {
        let inside = format!("{}/", self.target(path));
        self.files.keys().chain(self.links.keys()).any(|file| file.starts_with(&inside))
    }

    fn names(&self, path: &str) -> Vec<String> {
        let inside = format!("{}/", self.target(path));
        let mut names: Vec<String> = self
            .files
            .keys()
            .chain(self.links.keys())
            .filter_map(|file| file.strip_prefix(&inside))
            .filter(|rest| !rest.is_empty())
            .map(|rest| rest.split('/').next().unwrap().to_owned())
            .collect();
        names.sort();
        names.dedup();
        names.reverse();
        names
    }

    fn text(&self, path: &str) -> String {
        self.files[&self.target(path)].clone()
    }

    fn directory(&self, path: &str) -> SourceDirectory {
        let mut directory = SourceDirectory {
            path: path.to_owned(),
            linked: self.links.contains_key(path),
            project: None,
            entries: Vec::new(),
        };
        let project = format!("{path}/default.project.json");
        if self.files.contains_key(&self.target(&project)) {
            let tree = load_nested_project_tree(&project, self.text(&project).as_bytes()).unwrap();
            directory.project = Some(NestedProject { tree: Box::new(self.node(&tree, path)), path: project });
            return directory;
        }
        let entries = self
            .names(path)
            .into_iter()
            .map(|name| {
                let child = format!("{path}/{name}");
                let kind = if self.is_dir(&child) {
                    EntryKind::Directory(self.directory(&child))
                } else if name == "meta.json" {
                    EntryKind::Meta(metadata(&child, &self.text(&child)))
                } else {
                    EntryKind::Text(read_script_source(&name, &child, self.text(&child)).unwrap())
                };
                SourceEntry { linked: self.links.contains_key(&child), name, path: child, kind }
            })
            .collect();
        directory.entries = sort_entries(entries);
        directory
    }

    fn node(&self, node: &ProjectNode, root: &str) -> SourceNode {
        let source = match &node.path {
            None => Source::Inline,
            Some(relative) => {
                let path = resolve_mapped_path(root, relative, false).unwrap();
                if self.is_dir(&path) {
                    Source::Directory(self.directory(&path))
                } else if self.files.contains_key(&self.target(&path)) {
                    let file_name = path.rsplit('/').next().unwrap().to_owned();
                    Source::File(SourceFile {
                        source: read_script_source(&file_name, &path, self.text(&path)).unwrap(),
                        file_name,
                        linked: self.links.contains_key(&path),
                        path,
                    })
                } else {
                    Source::Missing(path)
                }
            }
        };
        SourceNode {
            class_name: node.class_name.clone(),
            metadata: Metadata { id: node.id.clone(), properties: TextMap::new(), attributes: TextMap::new() },
            relative: node.path.clone(),
            optional: node.path_optional,
            source,
            children: node
                .children
                .iter()
                .map(|child| SourceChild { name: child.name.clone(), node: self.node(&child.node, root) })
                .collect(),
        }
    }

    fn read(&self, path: &str, name: &str) -> Result<Snapshot, SourceError> {
        read_directory_instance(&self.directory(path), name, &reflection()).map(|(snapshot, _)| snapshot)
    }
}

fn metadata(path: &str, text: &str) -> Metadata {
    let meta = read_meta(path, text.as_bytes()).unwrap();
    Metadata { id: meta.id, properties: TextMap::new(), attributes: TextMap::new() }
}

fn listed(snapshot: &Snapshot) -> Vec<(&str, &str)> {
    snapshot.children.iter().map(|child| (child.name.as_str(), child.class.as_str())).collect()
}

fn child<'a>(snapshot: &'a Snapshot, name: &str) -> &'a Snapshot {
    snapshot.children.iter().find(|child| child.name == name).unwrap()
}

fn source(snapshot: &Snapshot) -> &str {
    match snapshot.properties.get("Source") {
        Some(Variant::String(source)) => source,
        _ => panic!("{} has no source", snapshot.name),
    }
}

fn parts(list: &[&str]) -> Vec<String> {
    list.iter().map(|part| part.to_string()).collect()
}

#[test]
fn unmarked_empty_directories_do_not_change_mapped_source() {
    let names = |snapshot: &Snapshot| snapshot.children.iter().map(|child| child.name.clone()).collect::<Vec<String>>();
    let before = Disk::new(&[("/root/Entry.luau", "return {}\n")]).read("/root", "Root").unwrap();
    let after = Disk::new(&[("/root/Entry.luau", "return {}\n"), ("/root/Empty/Nested/Leaf/", "")])
        .read("/root", "Root")
        .unwrap();
    assert_eq!(names(&before), vec!["Entry".to_owned()]);
    assert_eq!(names(&after), names(&before));

    let ignored_file = Disk::new(&[
        ("/root/Entry.luau", "return {}\n"),
        ("/root/Empty/Nested/Leaf/", ""),
        ("/root/Empty/README.md", "not mapped source\n"),
    ])
    .read("/root", "Root")
    .unwrap();
    assert_eq!(names(&ignored_file), names(&before));

    let marked = Disk::new(&[
        ("/root/Entry.luau", "return {}\n"),
        ("/root/Empty/Nested/Leaf/", ""),
        ("/root/Empty/README.md", "not mapped source\n"),
        ("/root/Empty/meta.json", "{}"),
    ])
    .read("/root", "Root")
    .unwrap();
    assert_eq!(names(&marked), vec!["Empty".to_owned(), "Entry".to_owned()]);
    assert!(child(&marked, "Empty").children.is_empty());
}

#[test]
fn mapped_directory_matches_rojo_for_pesde_source_forms() {
    let snapshot = Disk::new(&[
        ("/root/Dependency.lua", "return \"legacy Lua\"\n"),
        ("/root/Server.server.lua", "print(\"server\")\n"),
        ("/root/Client.client.lua", "print(\"client\")\n"),
        ("/root/Library/init.lua", "return {}\n"),
        (
            "/root/pesde.toml",
            "name = \"fixture\"\nenabled = true\ntargets = [\"client\", \"server\"]\n\n[dependencies]\nfoo = \"1.2.3\"\n\"hyphen-key\" = 42\n",
        ),
        ("/root/README.md", "# ignored by Rojo\n"),
    ])
    .read("/root", "Root")
    .unwrap();
    assert_eq!(
        listed(&snapshot),
        vec![
            ("Client", "LocalScript"),
            ("Dependency", "ModuleScript"),
            ("Library", "ModuleScript"),
            ("Server", "Script"),
            ("pesde", "ModuleScript"),
        ]
    );
    assert_eq!(
        source(child(&snapshot, "pesde")),
        "return {\n\tdependencies = {\n\t\tfoo = \"1.2.3\",\n\t\t[\"hyphen-key\"] = 42,\n\t},\n\tenabled = true,\n\tname = \"fixture\",\n\ttargets = {\"client\", \"server\"},\n}"
    );
}

#[test]
fn mapped_directory_ignores_pesde_type_declarations() {
    let package = "/root/.pesde/example_ui-labs@1.0.0/ui-labs";
    let project = format!("{package}/default.project.json");
    let init = format!("{package}/src/init.luau");
    let types = format!("{package}/src/index.d.ts");
    let manifest = format!("{package}/src/package.json");
    let license = format!("{package}/src/LICENSE");
    let snapshot = Disk::new(&[
        ("/root/ui_labs.luau", "return require(script.Parent[\".pesde\"])\n"),
        (&init, "return {}\n"),
        (&types, "export = {}\n"),
        (&project, "{\"tree\":{\"$path\":\"src\"}}\n"),
        (&manifest, "{}\n"),
        (&license, "fixture license\n"),
    ])
    .read("/root", "Packages")
    .unwrap();
    assert_eq!(listed(&snapshot), vec![(".pesde", "Folder"), ("ui_labs", "ModuleScript")]);
    let package = &snapshot.children[0].children[0].children[0];
    assert_eq!((package.name.as_str(), package.class.as_str()), ("ui-labs", "ModuleScript"));
    assert!(package.children.is_empty());
}

#[test]
fn mapped_directory_honors_pesde_rojo_runtime_root() {
    let disk = Disk::new(&[
        ("/root/fusion.luau", "return require(script.Parent[\".pesde\"][\"elttob_fusion@0.3.0\"].fusion)\n"),
        ("/root/.pesde/elttob_fusion@0.3.0/fusion/src/init.luau", "return { runtime = true }\n"),
        ("/root/.pesde/elttob_fusion@0.3.0/fusion/src/Child.luau", "return { child = true }\n"),
        (
            "/root/.pesde/elttob_fusion@0.3.0/fusion/roblox_packages/Dependency.luau",
            "return { dependency = true }\n",
        ),
        (
            "/root/.pesde/elttob_fusion@0.3.0/fusion/default.project.json",
            "{\"name\":\"fusion\",\"tree\":{\"$path\":\"src\",\
             \"roblox_packages\":{\"$path\":{\"optional\":\"roblox_packages\"}},\
             \"roblox_server_packages\":{\"$path\":{\"optional\":\"roblox_server_packages\"}}}}",
        ),
    ]);
    let snapshot = disk.read("/root", "Packages").unwrap();
    let fusion = child(child(child(&snapshot, ".pesde"), "elttob_fusion@0.3.0"), "fusion");
    assert_eq!(fusion.class, "ModuleScript");
    assert_eq!(source(fusion), "return { runtime = true }\n");
    assert_eq!(listed(fusion), vec![("Child", "ModuleScript"), ("roblox_packages", "Folder")]);
    assert!(fusion.children.iter().all(|child| child.name != "roblox_server_packages"));

    let paths = collect_directory_script_paths(&disk.directory("/root"), "roblox_packages", &Vec::new()).unwrap();
    let mut fusion_route = parts(&[".pesde", "elttob_fusion@0.3.0", "fusion"]);
    assert_eq!(
        find_script(&paths, &fusion_route),
        Some(&"roblox_packages/.pesde/elttob_fusion@0.3.0/fusion/src/init.luau".to_owned())
    );
    fusion_route.push("src".to_owned());
    assert_eq!(find_script(&paths, &fusion_route), None);
}

fn mapping(directory: SourceDirectory) -> SourceNode {
    SourceNode {
        class_name: None,
        metadata: Metadata { id: None, properties: TextMap::new(), attributes: TextMap::new() },
        relative: Some("packages".to_owned()),
        optional: false,
        source: Source::Directory(directory),
        children: Vec::new(),
    }
}

#[test]
fn mapped_directory_honors_generated_pesde_project_children() {
    let disk = Disk::new(&[
        ("/root/.pesde/acme_library@1.0.0/library/src/Library.luau", "return { library = true }\n"),
        ("/root/.pesde/acme_library@1.0.0/library/src/TestOnly.luau", "error(\"not selected\")\n"),
        (
            "/root/.pesde/acme_library@1.0.0/library/default.project.json",
            "{\"name\":\"library\",\"tree\":{\"$className\":\"Folder\",\
             \"Library\":{\"$path\":\"src/Library.luau\"},\
             \"roblox_packages\":{\"$path\":{\"optional\":\"roblox_packages\"}}}}",
        ),
    ]);
    let snapshot = disk.read("/root", "Packages").unwrap();
    let package = &snapshot.children[0].children[0].children[0];
    assert_eq!((package.name.as_str(), package.class.as_str()), ("library", "Folder"));
    assert_eq!(listed(package), vec![("Library", "ModuleScript")]);
    let mut locations = Vec::new();
    find_identity_locations(&mapping(disk.directory("/root")), &Vec::new(), package.id, &mut locations);
    assert!(matches!(locations.as_slice(), [IdentityLocation::StableLinked]));
}

#[test]
fn mapped_directory_still_rejects_adjacent_script_metadata() {
    let error = Disk::new(&[("/root/Module.luau", "return {}\n"), ("/root/Module.meta.json", "{}\n")])
        .read("/root", "Root")
        .unwrap_err();
    assert!(error.message.contains("adjacent per-script metadata is unsupported"));
}

#[test]
fn mapped_directory_follows_pesde_path_dependency_symlinks() {
    let disk = Disk::new(&[
        ("/root/Runtime.luau", "return {}\n"),
        ("/dependency/index.d.ts", "export = {}\n"),
        ("/dependency/init.luau", "return {}\n"),
        ("/dependency/Child.luau", "return {}\n"),
        ("/dependency/Linked.luau", "return {}\n"),
    ])
    .link("/root/index.d.ts", "/dependency/index.d.ts")
    .link("/root/linked_file.luau", "/dependency/Linked.luau")
    .link("/root/path_dependency", "/dependency")
    .link("/root/path_dependency_alias", "/dependency");
    let snapshot = disk.read("/root", "Packages").unwrap();
    assert_eq!(
        listed(&snapshot),
        vec![
            ("Runtime", "ModuleScript"),
            ("linked_file", "ModuleScript"),
            ("path_dependency", "ModuleScript"),
            ("path_dependency_alias", "ModuleScript"),
        ]
    );
    assert_eq!(listed(&snapshot.children[2]), vec![("Child", "ModuleScript"), ("Linked", "ModuleScript")]);
    assert_ne!(snapshot.children[2].id, snapshot.children[3].id);

    let dependency = parts(&["/", "dependency"]);
    assert_eq!(linked_watch_root(&dependency, true), Some(dependency.clone()));
    assert_eq!(linked_watch_root(&parts(&["/", "dependency", "Linked.luau"]), false), Some(dependency));

    let paths = collect_directory_script_paths(&disk.directory("/root"), "packages", &Vec::new()).unwrap();
    assert_eq!(
        find_script(&paths, &parts(&["path_dependency"])),
        Some(&"packages/path_dependency/init.luau".to_owned())
    );
    assert_eq!(find_script(&paths, &parts(&["linked_file"])), Some(&"packages/linked_file.luau".to_owned()));
}

#[test]
fn portable_collisions_are_rejected() {
    let error = Disk::new(&[("/root/Thing.luau", "return 1"), ("/root/thing.server.luau", "")])
        .read("/root", "Root")
        .unwrap_err();
    assert!(error.message.contains("collision"));
}

#[test]
fn strict_project_rejects_unknown_fields_and_lua() {
    let document =
        "{\"name\":\"Game\",\"tree\":{\"$className\":\"DataModel\",\"ReplicatedStorage\":{\"Bad\":{\"$path\":\"src/Bad.lua\",\"$ignoreUnknownInstances\":true}}}}";
    assert!(parse_project("game.carbon.json", document.as_bytes()).unwrap_err().message().contains("unsupported project node field"));
}

fn node(id: Ref, class: &str, name: &str) -> Snapshot {
    Snapshot::new().with_id(id).with_class(class).with_name(name)
}

#[test]
fn mapped_snapshot_export_marks_empty_folders_portably() {
    let snapshot = node(1, "Folder", "Shared").with_children(vec![node(2, "Folder", "Empty")]);
    let mut writes = Vec::new();
    write_mapped_snapshot(&snapshot, &parts(&["root", "Shared"]), &HashSet::new(), &reflection(), &mut writes).unwrap();
    let marker = writes
        .iter()
        .find_map(|write| match write {
            SourceWrite::Meta { path, snapshot, persist_id }
                if *path == parts(&["root", "Shared", "Empty", "meta.json"]) =>
            {
                Some((snapshot, *persist_id))
            }
            _ => None,
        })
        .unwrap();
    assert!(!marker.1);
    assert_eq!(marker.0.properties.len(), 0);

    let restored =
        Disk::new(&[("/root/Shared/Empty/meta.json", "{}")]).read("/root/Shared", "Shared").unwrap();
    assert_eq!(listed(&restored), vec![("Empty", "Folder")]);
}

const STARTER: &str = "{\"name\":\"Game\",\"tree\":{\"$className\":\"DataModel\",\
    \"ReplicatedStorage\":{\"Shared\":{\"$path\":\"src/ReplicatedStorage/Shared\"}},\
    \"ServerScriptService\":{\"Server\":{\"$path\":\"src/ServerScriptService/Server.server.luau\"}},\
    \"StarterPlayer\":{\"StarterPlayerScripts\":{\"Client\":{\"$path\":\"src/StarterPlayer/StarterPlayerScripts/Client.client.luau\"}}}}}";

fn starter() -> Disk {
    Disk::new(&[
        ("/game/src/ReplicatedStorage/Shared/Example.luau", "local Example = {}\n\nreturn Example\n"),
        ("/game/src/ServerScriptService/Server.server.luau", "-- Server entry point.\n"),
        ("/game/src/StarterPlayer/StarterPlayerScripts/Client.client.luau", "-- Client entry point.\n"),
    ])
}

fn empty_studio() -> Snapshot {
    node(1, "DataModel", "DataModel").with_children(vec![
        node(2, "Workspace", "Workspace"),
        node(3, "ReplicatedStorage", "ReplicatedStorage"),
        node(4, "ServerScriptService", "ServerScriptService"),
        node(5, "ServerStorage", "ServerStorage"),
        node(6, "StarterPlayer", "StarterPlayer")
            .with_children(vec![node(7, "StarterPlayerScripts", "StarterPlayerScripts")]),
    ])
}

fn materialize(disk: &Disk, document: &str) -> (Snapshot, Vec<Vec<String>>) {
    let project = parse_project("game.carbon.json", document.as_bytes()).unwrap();
    let tree = disk.node(&project.tree, "/game");
    match evaluate_project(empty_studio(), &tree, &reflection()) {
        Ok(found) => found,
        Err(error) => panic!("{}", error.message),
    }
}

fn live_policy(snapshot: &Snapshot, routes: &Vec<Vec<String>>) -> LivePolicy {
    let (mapped_refs, mapped_roots, routing) = snapshot_refs_for_routes(snapshot, routes).unwrap();
    let tree = Tree::new(snapshot.clone()).unwrap();
    assert_eq!(routing, routing_refs(&tree, &mapped_roots).unwrap());
    LivePolicy {
        project_path: "/game/game.carbon.json".to_owned(),
        project_document: STARTER.as_bytes().to_vec(),
        composite_manifest: "/game/state.carbon".to_owned(),
        routing_refs: routing,
        mapped_refs,
        retired_mapped_refs: HashSet::new(),
        mapped_roots,
        mapped_watch_roots: Vec::new(),
    }
}

fn addition(id: Ref, parent: Ref, class: &str, name: &str) -> AddedSnapshot {
    AddedSnapshot {
        id,
        parent,
        name: name.to_owned(),
        raw_name: None,
        class: class.to_owned(),
        properties: TextMap::new(),
        children: Vec::new(),
    }
}

#[test]
fn mapped_mutations_are_rejected_while_manifest_scripts_are_allowed() {
    let (snapshot, routes) = materialize(&starter(), STARTER);
    let policy = live_policy(&snapshot, &routes);
    let mapped_parent = *policy.mapped_roots.first().unwrap();
    let mut mapped = Changes::new();
    mapped.additions.push(addition(100, mapped_parent, "Part", "Part"));
    let rejected = policy.reject_studio_changes(&reflection(), &snapshot, &mut mapped).unwrap_err();
    assert!(rejected.message().contains("mapped project source is authoritative"));

    let manifest_parent = child(&snapshot, "Workspace").id;
    let mut script = Changes::new();
    script.additions.push(addition(101, manifest_parent, "Script", "ManifestScript"));
    assert!(policy.reject_studio_changes(&reflection(), &snapshot, &mut script).is_ok());
    assert_eq!(script.additions.len(), 1);
}

#[test]
fn canonical_mapped_sync_echoes_are_not_user_mutations() {
    let (snapshot, routes) = materialize(&starter(), STARTER);
    let policy = live_policy(&snapshot, &routes);
    let mapped = child(child(&snapshot, "ReplicatedStorage"), "Shared");
    let mapped_parent = mapped.id;

    let mut default_echo = Changes::new();
    let mut update = UpdatedSnapshot::new(mapped_parent);
    update.properties = Some(properties(vec![("Archivable", Variant::boolean(true))]));
    default_echo.updates.push(update);
    assert!(policy.reject_studio_changes(&reflection(), &snapshot, &mut default_echo).is_ok());
    assert!(default_echo.is_empty());

    let example = mapped.children.first().unwrap();
    let mut addition_echo = Changes::new();
    let mut echo = addition(example.id, mapped_parent, &example.class, &example.name);
    echo.properties = example.properties.copy();
    addition_echo.additions.push(echo);
    assert!(policy.reject_studio_changes(&reflection(), &snapshot, &mut addition_echo).is_ok());
    assert!(addition_echo.is_empty());

    let mut script_default_echo = Changes::new();
    let mut update = UpdatedSnapshot::new(example.id);
    update.properties = Some(properties(vec![("ScriptGuid", Variant::String(String::new()))]));
    script_default_echo.updates.push(update);
    assert!(policy.reject_studio_changes(&reflection(), &snapshot, &mut script_default_echo).is_ok());
    assert!(script_default_echo.is_empty());

    let mut attribute_bytes = Vec::new();
    rbx_dom_weak::types::Attributes::new().to_writer(&mut attribute_bytes).unwrap();
    let mut exact_attribute_echo = Changes::new();
    let mut update = UpdatedSnapshot::new(example.id);
    update.properties = Some(properties(vec![("Attributes", Variant::BinaryString(attribute_bytes))]));
    exact_attribute_echo.updates.push(update);
    assert!(policy.reject_studio_changes(&reflection(), &snapshot, &mut exact_attribute_echo).is_ok());
    assert!(exact_attribute_echo.is_empty());
}

#[test]
fn retired_mapping_events_never_enter_the_studio_manifest_transaction() {
    let (snapshot, routes) = materialize(&starter(), STARTER);
    let mut policy = live_policy(&snapshot, &routes);
    let retired = child(child(&snapshot, "ReplicatedStorage"), "Shared").id;
    assert!(policy.mapped_refs.contains(&retired));
    policy.mapped_refs.remove(&retired);
    policy.retired_mapped_refs.insert(retired);

    let mut changes = Changes::new();
    let mut update = UpdatedSnapshot::new(retired);
    update.properties = Some(properties(vec![("Source", Variant::String("stale mapped echo".to_owned()))]));
    changes.updates.push(update);
    changes.removals.push(retired);
    changes.additions.push(addition(100, retired, "ModuleScript", "StaleChild"));
    assert!(policy.reject_studio_changes(&reflection(), &snapshot, &mut changes).is_ok());
    assert!(changes.is_empty());
}

#[test]
fn project_and_meta_identity_fields_are_loaded_as_persistent_mapped_ids() {
    let inline_identity = identity_ref("legacy");
    let named = STARTER.replace("Server.server.luau\"", "Server.server.luau\",\"$id\":\"legacy\"");
    let (snapshot, routes) = materialize(&starter(), &named);
    assert!(live_policy(&snapshot, &routes).mapped_refs.contains(&inline_identity));

    let mut disk = starter();
    disk.files.insert("/game/src/ReplicatedStorage/Shared/meta.json".to_owned(), "{\"id\":\"legacy\"}".to_owned());
    let (snapshot, routes) = materialize(&disk, STARTER);
    assert!(live_policy(&snapshot, &routes).mapped_refs.contains(&inline_identity));
}

#[test]
fn mapped_identity_metadata_preserves_directory_identity_and_allows_manifest_references() {
    let identity: Ref = 0x0123_4567_89ab_cdef_0123_4567_89ab_cdef;
    let mut disk = starter();
    disk.files.insert(
        "/game/src/ReplicatedStorage/Shared/meta.json".to_owned(),
        format!("{{\"id\":\"{identity:032x}\"}}"),
    );
    let (first, routes) = materialize(&disk, STARTER);
    assert_eq!(child(child(&first, "ReplicatedStorage"), "Shared").id, identity);

    let policy = live_policy(&first, &routes);
    let mut held = first.clone();
    let workspace = held.children.iter_mut().find(|child| child.class == "Workspace").unwrap();
    workspace.children.push(
        node(200, "ObjectValue", "MappedReference")
            .with_properties(properties(vec![("Value", Variant::Ref(identity))])),
    );
    let project = parse_project("game.carbon.json", STARTER.as_bytes()).unwrap();
    let tree = disk.node(&project.tree, "/game");
    let (second, _) = reevaluate_projected(&held, &policy.mapped_refs, &tree, &reflection()).unwrap();
    let holder = child(child(&second, "Workspace"), "MappedReference");
    assert!(holder.properties.get("Value").unwrap().same(&Variant::Ref(identity)));
}

#[test]
fn live_path_replacement_does_not_echo_unrelated_studio_properties() {
    let mut disk = starter();
    disk.files.insert(
        "/game/src/ServerScriptService/Alternate.server.luau".to_owned(),
        "print('alternate')\n".to_owned(),
    );
    let (baseline, _) = materialize(&disk, STARTER);
    let (replacement, _) =
        materialize(&disk, &STARTER.replace("Server.server.luau", "Alternate.server.luau"));
    let frames = SameFrames { properties: HashMap::new() };
    let changes = diff_snapshots(&reflection(), &frames, &baseline, &replacement);
    assert_eq!(changes.additions.len(), 1);
    assert_eq!(changes.removals.len(), 1);
    assert!(changes.updates.is_empty());
}

fn exported(snapshot: &Snapshot) -> Snapshot {
    let meta = snapshot_meta(snapshot, false, &reflection()).unwrap();
    let mut directory = SourceDirectory {
        path: "/root/Shared".to_owned(),
        linked: false,
        project: None,
        entries: Vec::new(),
    };
    directory.entries.push(SourceEntry {
        name: "meta.json".to_owned(),
        path: "/root/Shared/meta.json".to_owned(),
        linked: false,
        kind: EntryKind::Meta(Metadata {
            id: meta.id,
            properties: meta.properties,
            attributes: meta.attributes.unwrap_or_else(TextMap::new),
        }),
    });
    read_directory_instance(&directory, "Shared", &reflection()).unwrap().0
}

#[test]
fn mapped_snapshot_export_preserves_attributes_and_tags() {
    let mut attributes = TextMap::new();
    attributes.insert(
        "Alpha".to_owned(),
        AttributeValue::Opaque { kind: "Int32".to_owned(), bytes: 42_i32.to_le_bytes().to_vec() },
    );
    attributes.insert("Enabled".to_owned(), AttributeValue::Opaque { kind: "Bool".to_owned(), bytes: vec![1] });
    let snapshot = node(1, "Folder", "Shared").with_properties(properties(vec![
        ("Attributes", Variant::Attributes(attributes)),
        ("Tags", Variant::Tags(vec!["One".to_owned()])),
    ]));
    let restored = exported(&snapshot);
    for name in ["Attributes", "Tags"] {
        assert!(restored.properties.get(name).unwrap().same(snapshot.properties.get(name).unwrap()));
    }
}

#[test]
fn mapped_snapshot_export_normalizes_utf8_attribute_binary_strings() {
    let labelled = |bytes: &[u8]| {
        let mut attributes = TextMap::new();
        attributes.insert("Label".to_owned(), AttributeValue::BinaryString(bytes.to_vec()));
        node(1, "Folder", "Shared").with_properties(properties(vec![("Attributes", Variant::Attributes(attributes))]))
    };
    let restored = exported(&labelled(b"value"));
    match restored.properties.get("Attributes") {
        Some(Variant::Attributes(restored)) => {
            assert!(restored.get("Label").unwrap().same(&AttributeValue::String("value".to_owned())));
        }
        _ => panic!("restored attributes are unavailable"),
    }
    assert_eq!(
        snapshot_meta(&labelled(&[0xff]), false, &reflection()).unwrap_err().message,
        "mapped string attribute is not valid UTF-8"
    );
}

#[test]
fn metadata_writes_references_and_identities_as_text() {
    let mut known = reflection();
    let mut pointing = TextMap::new();
    pointing.insert("Value".to_owned(), PropertyInfo { restricted: false, serializes: true, reference: true });
    pointing.insert("Other".to_owned(), PropertyInfo { restricted: false, serializes: true, reference: true });
    known.classes.insert(
        "ObjectValue".to_owned(),
        ClassInfo {
            superclass: Some("Instance".to_owned()),
            service: false,
            properties: pointing,
            defaults: TextMap::new(),
        },
    );
    let holder = node(0xab, "ObjectValue", "Holder").with_properties(properties(vec![
        ("Value", Variant::Ref(0x10)),
        ("Other", Variant::Ref(carbon::NO_REF)),
    ]));
    let meta = snapshot_meta(&holder, true, &known).unwrap();
    assert_eq!(meta.id.as_deref(), Some("000000000000000000000000000000ab"));
    assert_eq!(meta.references.get("Value").unwrap(), "00000000000000000000000000000010");
    assert_eq!(meta.references.get("Other").unwrap(), "null");
    assert_eq!(meta.properties.len(), 0);
    let odd = node(1, "Folder", "Odd").with_properties(properties(vec![("Attributes", Variant::String(String::new()))]));
    assert_eq!(snapshot_meta(&odd, false, &known).unwrap_err().message, "Attributes metadata is invalid");
}

fn has_field(document: &Json, name: &str) -> bool {
    match document {
        Json::Object(fields) => fields.iter().any(|field| field.key == name),
        _ => false,
    }
}

#[test]
fn project_schema_field_is_removed() {
    assert!(!has_field(&starter_project_json("Game"), "$schema"));
    assert!(!has_field(&project_json("Game", &Vec::new()), "$schema"));

    let document = "{\"$schema\":\"unused\",\"name\":\"Game\",\"tree\":{\"$className\":\"DataModel\"}}";
    let error = parse_project("game.carbon.json", document.as_bytes()).unwrap_err();
    assert!(error.message().contains("unsupported project field $schema"));
}

#[test]
fn new_projects_map_what_they_start_with() {
    let document = starter_project_json("Game");
    let project = project_from(&document).unwrap();
    assert_eq!(project.name, "Game");
    let mut disk = Disk::new(&[]);
    for file in starter_files() {
        disk.files.insert(format!("/game/{}", file.path), file.contents.to_owned());
    }
    let mut identities = ManifestIdentityAllocator::from_prefixes(vec![[0x11; 14]]);
    let mut first = [0x11_u8; 16];
    first[14..].fill(0);
    let first = u128::from_be_bytes(first);
    let studio = empty_studio_snapshot(&mut identities).unwrap();
    assert_eq!(studio.children.len(), 5);
    assert_eq!(studio.id, first);
    assert_eq!(studio.children[4].children[1].id, first + 7);
    assert!(matches!(
        empty_studio_snapshot(&mut ManifestIdentityAllocator::from_prefixes(vec![[0; 14]])),
        Err(IdentityError::PrefixesExhausted)
    ));
    let tree = disk.node(&project.tree, "/game");
    let (place, routes) = evaluate_project(studio, &tree, &reflection()).unwrap();
    assert_eq!(routes.len(), 3);
    assert_eq!(source(child(child(&place, "ServerScriptService"), "Server")), "-- Server entry point.\n");
}

#[test]
fn extracted_projects_are_read_back() {
    let place = node(1, "DataModel", "DataModel").with_children(vec![node(2, "ReplicatedStorage", "ReplicatedStorage")
        .with_children(vec![node(3, "Folder", "Shared").with_children(vec![node(4, "ModuleScript", "Main")
            .with_properties(properties(vec![("Source", Variant::String("return 1".to_owned()))]))])])]);
    let plan = plan_script_extraction(&place, &reflection());
    let document = project_json("Game", &plan.entries);
    let project = project_from(&document).unwrap();
    let mapped = &project.tree.children[0];
    assert_eq!(mapped.name, "ReplicatedStorage");
    let entry: &ExtractionEntry = &plan.entries[0];
    assert_eq!(&mapped.node.children[0].name, entry.route.last().unwrap());
    assert_eq!(mapped.node.children[0].node.path, Some(entry.output.join("/")));
}

#[test]
fn studio_changes_below_mappings_are_removed() {
    let disk = starter();
    let (place, routes) = materialize(&disk, STARTER);
    let policy = live_policy(&place, &routes);
    let shared = child(child(&place, "ReplicatedStorage"), "Shared");
    assert!(policy.mapped_refs.contains(&shared.id));
    assert!(policy.mapped_refs.contains(&shared.children[0].id));

    let mut changed = place.clone();
    for service in &mut changed.children {
        if service.name == "ReplicatedStorage" {
            service.children.push(node(300, "Folder", "Owned"));
            for mapped in &mut service.children {
                if mapped.name == "Shared" {
                    mapped.children.push(node(301, "Part", "OnlyInStudio"));
                }
            }
        }
    }
    let project = parse_project("game.carbon.json", STARTER.as_bytes()).unwrap();
    let tree = disk.node(&project.tree, "/game");
    let (after, _) = reevaluate_projected(&changed, &policy.mapped_refs, &tree, &reflection()).unwrap();
    let storage = child(&after, "ReplicatedStorage");
    assert!(storage.children.iter().any(|child| child.name == "Owned"));
    assert_eq!(listed(child(storage, "Shared")), vec![("Example", "ModuleScript")]);
}
