use std::collections::{HashMap, HashSet};

use carbon::build_cache::{
    build_cache_key, build_layer_key, check_copy, is_cached, script_positions, stage_cached_source_layer, BuildFacts,
    CachedBuild, CachedScriptPosition, MappedScriptSource, SerializedInstancePosition,
};
use carbon::builds::{
    collect_scripts, conclude_tree_build, source_generation, CompileAction, CompileEvent, CompileRun,
};
use carbon::evaluation::{evaluate_project, prune_mapped, reevaluate_projected};
use carbon::extraction::{
    contains_script, is_filesystem_representable, metadata_properties, plan_script_extraction, representation_name,
    script_source,
};
use carbon::hashing::stable_ref;
use carbon::identity_locations::{find_identity_locations, IdentityLocation};
use carbon::identity_staging::{
    all_settled, edited_document, find_project_node, identity_targets, plan_identity, script_directory, stage_identity,
    stage_mapped_identities, IdentityRequest, StagedIdentity,
};
use carbon::journal::{
    recover_replacement, replace, settle_domain, settle_move, settle_retirement, Domain, FileStep, Output, Retirement,
};
use carbon::journal_writing::{capture_journal, new_project_journal, replacement_journal};
use carbon::journal_documents::{
    capture_backup, conclude_failed_promotion, new_project_outputs, promotes_studio, promotion_backups,
    load_journal, promotion_domains, read_domain, read_journal, read_move, read_promotion, read_replacement, read_retirement,
    recover_promotion, studio_staging, transaction_journal, transaction_stage, Journal, OutputFacts, PromotionFacts,
    StudioStaging,
};
use carbon::json_view::document_bytes;
use carbon::lua::{is_lua_identifier, read_script_source, toml_module_source, TomlField, TomlValue};
use carbon::names::{
    clean_below, data_artifact, data_dir, fold_name, identity_ref, inspect, is_init_script_file, is_project_path, parse_ref,
    resolve_mapped_path, resolve_reference, script_class, script_name, script_suffix, validate_attribute_name,
    validate_explicit_id, validate_instance_name, NameError,
};
use carbon::project_document::{
    is_hybrid, load_nested_project_tree, parse_project, read_meta, Json, JsonField,
};
use carbon::project_writing::{admit_new_project, Beginning, Standing};
use carbon::reflection::{ClassInfo, PropertyInfo, Reflection};
use carbon::snapshot::Snapshot;
use carbon::source_metadata::{
    merge_snapshots, resolve_mapped_property, validate_filesystem_subtree, validate_sibling_names, DeclaredValue, Metadata,
};
use carbon::source_tree::{
    read_directory_instance, read_script_file, sort_entries, EntryKind, NestedProject, Source, SourceChild,
    SourceDirectory, SourceEntry, SourceFile, SourceNode,
};
use carbon::source_writing::{write_mapped_snapshot, SourceWrite};
use carbon::sourcemap::{
    collect_directory_script_paths, collect_project_script_paths, find_script, relist_map, ScriptPath,
};
use carbon::text::ref_text;
use carbon::text_map::{Plain, TextMap};
use carbon::variant::{Properties, Variant};
use carbon::watch_roots::{find_active_ancestor, linked_watch_root, mapped_watch_root, MappedRoot};
use carbon::Ref;

fn properties(entries: Vec<(&str, Variant)>) -> Properties {
    let mut properties = TextMap::new();
    for (name, value) in entries {
        properties.insert(name.to_owned(), value);
    }
    properties
}

fn text(value: &str) -> Variant {
    Variant::String(value.to_owned())
}

fn node(id: Ref, class: &str, name: &str) -> Snapshot {
    Snapshot::new().with_id(id).with_class(class).with_name(name)
}

fn parts(list: &[&str]) -> Vec<String> {
    list.iter().map(|part| part.to_string()).collect()
}

fn reflection() -> Reflection {
    let mut classes = TextMap::new();
    let mut known = TextMap::new();
    for name in ["Archivable", "Attributes", "Value"] {
        known.insert(name.to_owned(), PropertyInfo { restricted: false, serializes: true, reference: false });
    }
    classes.insert(
        "Instance".to_owned(),
        ClassInfo {
            superclass: None,
            service: false,
            properties: known,
            defaults: properties(vec![("Archivable", Variant::boolean(true))]),
        },
    );
    for (name, service) in [
        ("Folder", false),
        ("Script", false),
        ("LocalScript", false),
        ("ModuleScript", false),
        ("ReplicatedStorage", true),
        ("ServerScriptService", true),
        ("StarterPlayer", true),
        ("StarterPlayerScripts", false),
    ] {
        classes.insert(
            name.to_owned(),
            ClassInfo {
                superclass: Some("Instance".to_owned()),
                service,
                properties: TextMap::new(),
                defaults: TextMap::new(),
            },
        );
    }
    Reflection { classes }
}

fn json(value: &str) -> Json {
    convert(&serde_json::from_str(value).unwrap())
}

fn convert(value: &serde_json::Value) -> Json {
    match value {
        serde_json::Value::Null => Json::Null,
        serde_json::Value::Bool(value) => Json::Bool(*value),
        serde_json::Value::Number(number) => Json::Number(number.to_string()),
        serde_json::Value::String(text) => Json::String(text.clone()),
        serde_json::Value::Array(list) => Json::Array(list.iter().map(convert).collect()),
        serde_json::Value::Object(map) => Json::Object(
            map.iter().map(|(key, value)| JsonField { key: key.clone(), value: convert(value) }).collect(),
        ),
    }
}

fn nothing() -> Metadata {
    Metadata { id: None, properties: TextMap::new(), attributes: TextMap::new() }
}

fn inline(children: Vec<(&str, SourceNode)>) -> SourceNode {
    SourceNode {
        class_name: None,
        metadata: nothing(),
        relative: None,
        optional: false,
        source: Source::Inline,
        children: children
            .into_iter()
            .map(|(name, node)| SourceChild { name: name.to_owned(), node })
            .collect(),
    }
}

fn mapped(relative: &str, source: Source) -> SourceNode {
    SourceNode {
        class_name: None,
        metadata: nothing(),
        relative: Some(relative.to_owned()),
        optional: false,
        source,
        children: Vec::new(),
    }
}

fn file(path: &str, source: &str) -> Source {
    Source::File(SourceFile {
        path: path.to_owned(),
        file_name: path.rsplit('/').next().unwrap().to_owned(),
        source: source.to_owned(),
        linked: false,
    })
}

fn entry(path: &str, kind: EntryKind) -> SourceEntry {
    SourceEntry { name: path.rsplit('/').next().unwrap().to_owned(), path: path.to_owned(), linked: false, kind }
}

fn directory(path: &str, entries: Vec<SourceEntry>) -> SourceDirectory {
    SourceDirectory { path: path.to_owned(), linked: false, project: None, entries }
}

fn shared() -> SourceDirectory {
    directory(
        "/game/src/Shared",
        vec![
            entry("/game/src/Shared/Main.luau", EntryKind::Text("return 1".to_owned())),
            entry("/game/src/Shared/Sub", EntryKind::Directory(directory("/game/src/Shared/Sub", vec![]))),
        ],
    )
}

fn project_tree() -> SourceNode {
    let mut tree = inline(vec![
        ("ReplicatedStorage", inline(vec![("Shared", mapped("src/Shared", Source::Directory(shared())))])),
        (
            "ServerScriptService",
            inline(vec![(
                "Server",
                mapped("src/Server.server.luau", file("/game/src/Server.server.luau", "print('server')")),
            )]),
        ),
    ]);
    tree.class_name = Some("DataModel".to_owned());
    tree
}

fn studio() -> Snapshot {
    node(1, "DataModel", "DataModel").with_children(vec![
        node(2, "ReplicatedStorage", "ReplicatedStorage"),
        node(3, "ServerScriptService", "ServerScriptService"),
    ])
}

#[test]
fn projects_are_told_by_their_name() {
    assert!(is_project_path(&parts(&["game", "game.carbon.json"])));
    assert!(!is_project_path(&parts(&["game", "game.json"])));
    assert_eq!(
        data_dir(&parts(&["game", "place.carbon.json"])).unwrap(),
        parts(&["game", "place.carbon.data"])
    );
    assert_eq!(
        data_artifact(&parts(&["game", "place.carbon.json"])).unwrap(),
        parts(&["game", "place.carbon.data", "state.carbon"])
    );
    assert!(matches!(data_dir(&parts(&["game", "place.toml"])), Err(NameError::NotAProject)));
    assert!(matches!(data_dir(&parts(&[])), Err(NameError::NoFileName)));
    let project = parts(&["game.carbon.json"]);
    assert!(inspect(&project, Ok("Game".to_owned()), true, Ok(true)).unwrap().is_place());
    assert!(inspect(&project, Ok("Game".to_owned()), false, Ok(true)).is_err());
    assert!(inspect(&project, Err("broken".to_owned()), true, Ok(true)).is_err());
}

#[test]
fn mapped_paths_are_relative_and_clean() {
    assert_eq!(resolve_mapped_path("/game", "src/../lib/./a", false).unwrap(), "/game/lib/a");
    assert!(matches!(resolve_mapped_path("/game", "", false), Err(NameError::EmptyPath)));
    assert!(matches!(resolve_mapped_path("/game", "/abs", false), Err(NameError::AbsolutePath)));
    assert!(resolve_mapped_path("/game", "C:src", false).is_ok());
    for absolute in ["C:/src", "c:\\src", "\\\\server\\share", "//server/share"] {
        assert!(matches!(resolve_mapped_path("/game", absolute, true), Err(NameError::AbsolutePath)));
    }
    for outside in ["C:src", "\\src", "/src"] {
        assert_eq!(
            resolve_mapped_path("/game", outside, true).unwrap_err().message(),
            format!("$path contains unsafe components: {outside}")
        );
    }
    assert!(resolve_mapped_path("/game", "src/Main.luau", true).is_ok());
}

#[test]
fn script_files_have_a_name_and_a_class() {
    for (file, name, class) in [
        ("Main.server.luau", "Main", "Script"),
        ("Main.client.lua", "Main", "LocalScript"),
        ("Main.luau", "Main", "ModuleScript"),
        ("data.toml", "data", "ModuleScript"),
    ] {
        assert_eq!(script_name(file).unwrap(), name);
        assert_eq!(script_class(file).unwrap(), class);
    }
    assert!(matches!(script_name(".luau"), Err(NameError::NoScriptName(_))));
    assert!(matches!(script_name("readme.md"), Err(NameError::UnsupportedForm(_))));
    assert!(matches!(script_class("readme.md"), Err(NameError::UnsupportedSource(_))));
    assert!(is_init_script_file("init.server.luau"));
    assert!(!is_init_script_file("initial.luau"));
    assert_eq!(script_suffix("LocalScript"), ".client.luau");
}

#[test]
fn names_have_to_stand_on_every_file_system() {
    assert!(validate_instance_name("Main").is_ok());
    assert!(matches!(validate_instance_name(""), Err(NameError::EmptyInstance)));
    assert!(matches!(validate_instance_name("a/b"), Err(NameError::NotPortable(_))));
    assert!(matches!(validate_instance_name("name."), Err(NameError::NonPortableSuffix(_))));
    assert!(matches!(validate_instance_name("con.txt"), Err(NameError::Reserved(_))));
    assert_eq!(fold_name("E\u{301}A"), "\u{e9}a");
    assert!(validate_attribute_name("Level_1").is_ok());
    assert!(matches!(validate_attribute_name(""), Err(NameError::AttributeLength)));
    assert!(matches!(validate_attribute_name("RBXLevel"), Err(NameError::AttributePrefix)));
    assert!(matches!(validate_attribute_name("a b"), Err(NameError::InvalidAttribute(_))));
}

#[test]
fn explicit_identities_are_written_or_derived() {
    let written = "00000000000000000000000000000010";
    assert_eq!(parse_ref(written), Some(16));
    assert_eq!(identity_ref(written), 16);
    assert_ne!(identity_ref("door"), identity_ref("window"));
    assert_eq!(identity_ref("door"), resolve_reference("door"));
    assert!(matches!(validate_explicit_id("  "), Err(NameError::EmptyIdentity)));
    assert!(matches!(validate_explicit_id(" door"), Err(NameError::IdentityWhitespace)));
    assert!(validate_explicit_id("door").is_ok());
}

#[test]
fn project_documents_are_strict() {
    let document =
        r#"{"name":"Game","tree":{"$className":"DataModel","ReplicatedStorage":{"Shared":{"$path":"src/Shared"}}}}"#;
    let parse = |value: &str| parse_project("game.carbon.json", value.as_bytes());
    let project = parse(document).unwrap();
    assert_eq!(project.name, "Game");
    assert_eq!(project.tree.class_name.as_deref(), Some("DataModel"));
    assert_eq!(project.tree.children[0].node.children[0].node.path.as_deref(), Some("src/Shared"));
    assert!(is_hybrid(&project.tree, true));

    let refused = |value: &str| parse(value).unwrap_err().message();
    assert!(refused(r#"{"$schema":"unused","name":"Game","tree":{"$className":"DataModel"}}"#)
        .contains("unsupported project field $schema"));
    assert_eq!(refused("[]"), "Carbon project root must be an object");
    assert_eq!(refused(r#"{"tree":{}}"#), "project is missing name");
    assert_eq!(refused(r#"{"name":"Game"}"#), "project is missing tree");
    assert_eq!(refused(r#"{"name":1,"tree":{}}"#), "project name must be a string");
    assert_eq!(refused(r#"{"name":"","tree":{}}"#), "project name may not be empty");
    assert_eq!(refused(r#"{"name":"Game","tree":1}"#), "project node tree must be an object");
    assert!(refused(r#"{"name":"Game","tree":{"$other":1}}"#).contains("unsupported project node field $other"));
    assert!(refused(r#"{"name":"Game","tree":{"$id":" x"}}"#).contains("surrounding whitespace"));
    let broken = serde_json::from_str::<serde_json::Value>("{\"name\":").unwrap_err();
    assert_eq!(refused("{\"name\":"), format!("failed to parse strict JSON project game.carbon.json: {broken}"));
}

#[test]
fn nested_projects_are_read_and_refused_under_their_name() {
    let load = |value: &str| load_nested_project_tree("default.project.json", value.as_bytes());
    let tree = load(r#"{"name":"Package","tree":{"$path":{"optional":"src"}}}"#).unwrap();
    assert!(tree.path_optional);
    assert_eq!(tree.path.as_deref(), Some("src"));
    let refused = |value: &str| load(value).unwrap_err().message();
    assert_eq!(refused("[]"), "nested Rojo project default.project.json must be an object");
    assert_eq!(refused("{}"), "nested Rojo project default.project.json is missing tree");
    assert_eq!(refused(r#"{"tree":{"A":1}}"#), "nested Rojo project node tree.A must be an object");
    assert_eq!(refused(r#"{"tree":{"$other":1}}"#), "unsupported nested Rojo project node field $other at tree");
    assert!(refused("{").starts_with("failed to parse nested Rojo project default.project.json: "));
}

#[test]
fn metadata_documents_are_strict() {
    let read = |value: &str| read_meta("meta.json", value.as_bytes());
    let meta = read(r#"{"id":"door","properties":{"Value":1}}"#).unwrap();
    assert_eq!(meta.id.unwrap(), "door");
    match meta.properties {
        Some(Json::Object(fields)) => {
            assert_eq!(fields[0].key, "Value");
            assert!(matches!(&fields[0].value, Json::Number(number) if number == "1"));
        }
        other => panic!("{other:?}"),
    }
    assert!(meta.attributes.is_none());
    let refused = |value: &str| read(value).unwrap_err().message();
    assert_eq!(refused("1"), "meta.json must be an object");
    assert_eq!(refused(r#"{"className":"Part"}"#), "unsupported meta.json field className");
    assert_eq!(refused(r#"{"id":1}"#), "meta.json id must be a string");
    assert_eq!(refused(r#"{"id":""}"#), "filesystem identity may not be empty");
    assert!(refused("{]").starts_with("failed to parse meta.json: "));
}

#[test]
fn mapped_source_is_composed_into_the_place() {
    let (place, routes) = evaluate_project(studio(), &project_tree(), &reflection()).unwrap();
    assert_eq!(
        routes,
        vec![parts(&["ReplicatedStorage", "Shared"]), parts(&["ServerScriptService", "Server"])]
    );
    let storage = place.children.iter().find(|child| child.name == "ReplicatedStorage").unwrap();
    let shared = &storage.children[0];
    assert_eq!((shared.name.as_str(), shared.class.as_str()), ("Shared", "Folder"));
    assert_eq!(shared.id, stable_ref("source:/game/src/Shared"));
    let main = shared.children.iter().find(|child| child.name == "Main").unwrap();
    assert_eq!(main.class, "ModuleScript");
    assert!(main.properties.get("Source").unwrap().same(&text("return 1")));
    let scripts = place.children.iter().find(|child| child.name == "ServerScriptService").unwrap();
    assert_eq!(scripts.children[0].class, "Script");

    let refs: HashSet<u128> = [shared.id, main.id, scripts.children[0].id].into_iter().collect();
    let pruned = prune_mapped(&place, &refs);
    assert!(pruned.children.iter().all(|service| service.children.is_empty()));
    let (again, _) = reevaluate_projected(&place, &refs, &project_tree(), &reflection()).unwrap();
    assert_eq!(again.children.len(), 2);
    assert_eq!(again.children[0].children.len(), 1);
}

#[test]
fn directories_hold_one_script_and_known_files() {
    let read = |entries: Vec<SourceEntry>| {
        read_directory_instance(&directory("/game/src/Dir", entries), "Dir", &reflection())
    };
    let (plain, _) = read(vec![entry("/game/src/Dir/init.luau", EntryKind::Text("return 2".to_owned()))]).unwrap();
    assert_eq!(plain.class, "ModuleScript");
    let two = read(vec![
        entry("/game/src/Dir/init.client.luau", EntryKind::Text(String::new())),
        entry("/game/src/Dir/init.luau", EntryKind::Text(String::new())),
    ]);
    assert!(two.is_err());
    let (ignored, portable) = read(vec![entry("/game/src/Dir/readme.md", EntryKind::Unread)]).unwrap();
    assert_eq!((ignored.class.as_str(), portable), ("Folder", false));
    let strange = read(vec![entry("/game/src/Dir/socket", EntryKind::Other)]).unwrap_err();
    assert_eq!(strange.message, "unsupported mapped source entry /game/src/Dir/socket");
    let adjacent = read(vec![entry("/game/src/Dir/A.meta.json", EntryKind::Unread)]).unwrap_err();
    assert_eq!(
        adjacent.message,
        "adjacent per-script metadata is unsupported; use directory meta.json: /game/src/Dir/A.meta.json"
    );
    let sorted = sort_entries(vec![
        entry("/b.luau", EntryKind::Unread),
        entry("/a.luau", EntryKind::Unread),
    ]);
    assert_eq!(sorted[0].name, "a.luau");
    let script = read_script_file("/game/A.client.luau", "A.client.luau", &"x".to_owned(), "A").unwrap();
    assert_eq!(script.class, "LocalScript");
}

#[test]
fn siblings_that_a_file_system_confuses_are_refused() {
    let siblings = vec![node(1, "Folder", "Main"), node(2, "Folder", "MAIN")];
    assert!(validate_sibling_names(&siblings, "src").is_err());
    let tree = node(3, "Folder", "src").with_children(vec![node(1, "Part", "Block")]);
    assert!(validate_filesystem_subtree(&tree, "src").is_err());
    let merged = merge_snapshots(
        &node(4, "Folder", "A").with_children(vec![node(5, "Folder", "X")]),
        &node(4, "Folder", "A").with_children(vec![node(5, "Folder", "Y")]),
    )
    .unwrap();
    assert_eq!(merged.children.len(), 2);
}

#[test]
fn identities_are_found_where_they_come_from() {
    let tree = project_tree();
    let locate = |target: Ref| {
        let mut found = Vec::new();
        find_identity_locations(&tree, &Vec::new(), target, &mut found);
        found
    };
    let found = locate(stable_ref("source:/game/src/Shared/Sub"));
    assert!(matches!(found.as_slice(), [IdentityLocation::Directory(path)] if path == "/game/src/Shared/Sub"));
    let found = locate(stable_ref("source:/game/src/Server.server.luau"));
    assert!(matches!(
        found.as_slice(),
        [IdentityLocation::ScriptFile { route: Some(route), relative: Some(relative), .. }]
            if route == &parts(&["ServerScriptService", "Server"]) && relative == "src/Server.server.luau"
    ));
    assert!(locate(77).is_empty());

    let mut persisted = inline(vec![]);
    persisted.metadata.id = Some("door".to_owned());
    let mut found = Vec::new();
    find_identity_locations(&persisted, &Vec::new(), identity_ref("door"), &mut found);
    assert!(all_settled(&found));

    let mut nested = directory("/game/src/Package", vec![]);
    nested.project = Some(NestedProject {
        path: "/game/src/Package/default.project.json".to_owned(),
        tree: Box::new(mapped("lib", file("/game/src/Package/lib/A.luau", ""))),
    });
    let holder = mapped("src/Package", Source::Directory(nested));
    let mut found = Vec::new();
    find_identity_locations(&holder, &Vec::new(), stable_ref("source:/game/src/Package/lib/A.luau"), &mut found);
    assert!(matches!(found.as_slice(), [IdentityLocation::ScriptFile { route: None, relative: None, .. }]));
}

const SERVER_PROJECT: &str =
    r#"{"name":"Game","tree":{"ServerScriptService":{"$className":"ServerScriptService","Server":{"$path":"src/Server.server.luau"}}}}"#;

fn wanted(target: u128, location: IdentityLocation) -> IdentityRequest {
    IdentityRequest { target, location, meta: None, occupied: false, cancelled: false }
}

#[test]
fn identities_are_written_down_where_they_come_from() {
    let document = json(SERVER_PROJECT);
    let tree = project_tree();
    let target = stable_ref("source:/game/src/Server.server.luau");
    let targets: HashSet<u128> = [target].into_iter().collect();
    assert_eq!(identity_targets(&targets, &targets).unwrap(), vec![target]);
    assert_eq!(
        identity_targets(&targets, &HashSet::new()).unwrap_err().message,
        "capture requested identity persistence for a non-mapped target"
    );
    let planned = || plan_identity(&tree, target, false).unwrap();
    assert!(plan_identity(&tree, target, true).unwrap_err().message.contains("cancelled"));
    assert_eq!(
        plan_identity(&tree, 77, false).unwrap_err().message,
        format!("mapped reference target {:032x} has 0 source identity locations; expected exactly one", 77)
    );
    let staged = stage_identity(3, &wanted(target, planned()), &document).unwrap();
    match &staged {
        StagedIdentity::Script { staged, path, directory, init_file, meta, mapping } => {
            assert_eq!(staged, "script-3");
            assert_eq!(path, "/game/src/Server.server.luau");
            assert_eq!(directory, "/game/src/Server");
            assert_eq!(init_file, "init.server.luau");
            assert_eq!(written(meta)["id"], ref_text(target));
            assert_eq!(
                mapping,
                &Some((parts(&["ServerScriptService", "Server"]), "src/Server".to_owned()))
            );
        }
        other => panic!("{other:?}"),
    }
    let project = written(&edited_document(document, &staged).unwrap());
    assert_eq!(project["tree"]["ServerScriptService"]["Server"]["$path"], "src/Server");
    assert_eq!(project["tree"]["ServerScriptService"]["$className"], "ServerScriptService");
    assert_eq!(project["name"], "Game");

    let document = json(SERVER_PROJECT);
    let occupied = IdentityRequest { occupied: true, ..wanted(target, planned()) };
    assert_eq!(
        stage_identity(3, &occupied, &document).unwrap_err().message,
        "cannot persist mapped script identity because /game/src/Server already exists"
    );
    let cancelled = IdentityRequest { cancelled: true, ..wanted(target, planned()) };
    assert!(stage_identity(3, &cancelled, &document).unwrap_err().message.contains("cancelled"));
    let lost = json(r#"{"name":"Game","tree":{}}"#);
    assert_eq!(
        stage_identity(3, &wanted(target, planned()), &lost).unwrap_err().message,
        "project route ServerScriptService.Server is missing"
    );
    assert!(edited_document(lost, &staged).is_err());

    let held = || IdentityLocation::Directory("/game/src/Shared".to_owned());
    let taken = IdentityRequest { meta: Some(br#"{"id":"taken"}"#.to_vec()), ..wanted(9, held()) };
    assert!(stage_identity(0, &taken, &document).unwrap_err().message.contains("mapped directory identity changed"));
    let kept = IdentityRequest { meta: Some(br#"{"properties":{"Value":1}}"#.to_vec()), ..wanted(9, held()) };
    match stage_identity(0, &kept, &document).unwrap() {
        StagedIdentity::Meta { staged, directory, document } => {
            assert_eq!(staged, "identity-0.json");
            assert_eq!(directory, "/game/src/Shared");
            let meta = written(&document);
            assert_eq!(meta["id"], ref_text(9));
            assert_eq!(meta["properties"]["Value"], 1);
        }
        other => panic!("{other:?}"),
    }
    let list = IdentityRequest { meta: Some(b"[]".to_vec()), ..wanted(9, held()) };
    assert_eq!(stage_identity(0, &list, &document).unwrap_err().message, "meta.json must be an object");
    let broken = IdentityRequest { meta: Some(b"[".to_vec()), ..wanted(9, held()) };
    assert!(stage_identity(0, &broken, &document).is_err());
    assert!(find_project_node(&json("[]"), &Vec::new()).is_err());
}

#[test]
fn identities_of_a_capture_are_staged_one_after_the_other() {
    let target = stable_ref("source:/game/src/Server.server.luau");
    let service = || IdentityLocation::Inline(parts(&["ServerScriptService"]));
    let requests = vec![
        wanted(9, service()),
        wanted(8, IdentityLocation::Persisted),
        wanted(target, plan_identity(&project_tree(), target, false).unwrap()),
    ];
    let staged = stage_mapped_identities(SERVER_PROJECT.as_bytes(), &requests).unwrap();
    assert_eq!(staged.staged.len(), 3);
    assert!(matches!(&staged.staged[2], StagedIdentity::Script { staged, .. } if staged == "script-2"));
    let project = written(&staged.project.unwrap());
    assert_eq!(project["tree"]["ServerScriptService"]["$id"], ref_text(9));
    assert_eq!(project["tree"]["ServerScriptService"]["Server"]["$path"], "src/Server");

    let twice = vec![wanted(9, service()), wanted(10, service())];
    assert_eq!(
        stage_mapped_identities(SERVER_PROJECT.as_bytes(), &twice).unwrap_err().message,
        "inline identity changed while staging ServerScriptService"
    );
    let settled = vec![wanted(8, IdentityLocation::StableLinked)];
    assert!(stage_mapped_identities(SERVER_PROJECT.as_bytes(), &settled).unwrap().project.is_none());
    let broken = serde_json::from_str::<serde_json::Value>("{").unwrap_err();
    assert_eq!(stage_mapped_identities(b"{", &settled).unwrap_err().message, broken.to_string());
}

#[test]
fn scripts_move_into_a_directory_beside_them() {
    assert_eq!(script_directory("/game/src/Main.luau").unwrap(), "/game/src/Main");
    assert_eq!(script_directory("/Main.client.luau").unwrap(), "/Main");
    assert_eq!(script_directory("Main.luau").unwrap(), "Main");
    assert_eq!(script_directory("./src/.//Main.luau").unwrap(), "./src/Main");
    assert_eq!(script_directory("/game/readme.md").unwrap_err().message, "unsupported mapped source file readme.md");
    let document = json(r#"{"name":"Game","tree":{"A":{"$path":"a\\b/Main.luau"}}}"#);
    let location = IdentityLocation::ScriptFile {
        path: "/game/a/b/Main.luau".to_owned(),
        route: Some(parts(&["A"])),
        relative: Some("a\\b/Main.luau".to_owned()),
    };
    match stage_identity(0, &wanted(5, location), &document).unwrap() {
        StagedIdentity::Script { mapping: Some((_, relative)), .. } => assert_eq!(relative, "a/b/Main"),
        other => panic!("{other:?}"),
    }
}

fn domain() -> Domain {
    Domain { staged: "staged".to_owned(), target: "target".to_owned(), backup: "backup".to_owned() }
}

/// Which of the paths of a domain are there after the first steps of a plan.
fn after(steps: &[FileStep], there: &[&str]) -> HashSet<String> {
    let mut there: HashSet<String> = there.iter().map(|path| path.to_string()).collect();
    for step in steps {
        match step {
            FileStep::Rename { from, to } | FileStep::RenameInto { from, to } => {
                assert!(there.remove(from));
                there.insert(to.clone());
            }
            FileStep::Remove(path) => {
                there.remove(path);
            }
        }
    }
    there
}

#[test]
fn interrupted_promotions_are_rolled_forward() {
    let steps = settle_domain(&domain(), true, true, false, false).unwrap();
    assert_eq!(steps.len(), 2);
    for done in 0..=2 {
        let there = after(&steps[..done], &["staged", "target"]);
        let has = |path: &str| there.contains(path);
        let left = settle_domain(&domain(), has("staged"), has("target"), has("backup"), true).unwrap();
        assert_eq!(left.len(), 2 - done);
    }
    assert_eq!(
        settle_domain(&domain(), true, true, true, true).unwrap_err().message,
        "cannot recover occupied capture target target"
    );
    assert_eq!(
        settle_domain(&domain(), false, false, true, false).unwrap_err().message,
        "capture promotion target is missing: target"
    );
    let retirement = Retirement { target: "target".to_owned(), backup: "backup".to_owned() };
    assert_eq!(settle_retirement(&retirement, true, false, true).unwrap().len(), 1);
    assert!(settle_retirement(&retirement, false, true, true).unwrap().is_empty());
    assert!(settle_retirement(&retirement, true, true, true).is_err());
    let output = Output { source: "staged".to_owned(), target: "target".to_owned() };
    assert!(matches!(settle_move(&output, true, false, true).unwrap()[0], FileStep::RenameInto { .. }));
    assert!(settle_move(&output, false, true, false).unwrap().is_empty());
    assert_eq!(
        settle_move(&output, false, false, false).unwrap_err().message,
        "cannot recover transaction target target"
    );
}

#[test]
fn interrupted_replacements_are_all_or_nothing() {
    let steps = replace(&domain(), true);
    assert_eq!(steps.len(), 3);
    for done in 0..=3 {
        let there = after(&steps[..done], &["staged", "target"]);
        let has = |path: &str| there.contains(path);
        let recovery = recover_replacement(&domain(), has("staged"), has("target"), has("backup")).unwrap();
        let ended = after(&recovery, &there.iter().map(String::as_str).collect::<Vec<&str>>());
        assert_eq!(ended, HashSet::from(["target".to_owned()]));
    }
    assert_eq!(replace(&domain(), false).len(), 1);
    assert!(recover_replacement(&domain(), false, false, false).is_err());
}

#[test]
fn journals_are_read_by_their_mode() {
    assert!(matches!(
        read_journal(&json(r#"{"version":1,"mode":"replaceData"}"#)),
        Ok(Journal::Replacement)
    ));
    assert!(matches!(read_journal(&json(r#"{"version":1,"mode":"promoteScript"}"#)), Ok(Journal::PromoteScript)));
    assert!(matches!(
        read_journal(&json(r#"{"version":1,"mode":"createProject","outputs":[{}]}"#)),
        Ok(Journal::CreateProject { outputs }) if outputs.len() == 1
    ));
    assert!(matches!(
        read_journal(&json(r#"{"version":1,"mode":"captureData","domains":[]}"#)),
        Ok(Journal::CaptureData { retirements: None, .. })
    ));
    let refused = |value: &str| load_journal(value.as_bytes()).unwrap_err().message;
    let loaded = load_journal(br#"{"version":1,"mode":"replaceFile","target":"t"}"#).unwrap();
    assert!(matches!(read_journal(&loaded), Ok(Journal::Replacement)));
    let broken = serde_json::from_str::<serde_json::Value>("{").unwrap_err();
    assert_eq!(refused("{"), broken.to_string());
    assert_eq!(refused(r#"{"version":2,"mode":"replaceData"}"#), "unsupported Carbon recovery journal");
    assert_eq!(refused(r#"{"version":1,"mode":"other"}"#), "unsupported Carbon recovery journal mode");
    assert_eq!(
        refused(r#"{"version":1,"mode":"createProject"}"#),
        "create-project recovery journal has no outputs"
    );
    assert_eq!(
        refused(r#"{"version":1,"mode":"captureData"}"#),
        "capture-data recovery journal has no domains"
    );
    let record = json(r#"{"staged":"s","target":"t","backup":"b"}"#);
    assert_eq!(read_domain(&record).unwrap().backup, "b");
    assert_eq!(read_replacement(&record).unwrap().staged, "s");
    assert_eq!(read_retirement(&record).unwrap().target, "t");
    assert_eq!(read_move(&record, "staged", "target").unwrap().source, "s");
    assert_eq!(read_domain(&json("{}")).unwrap_err().message, "recovery journal is missing staged");
    assert_eq!(read_replacement(&json("{}")).unwrap_err().message, "recovery journal is missing target");
}

#[test]
fn interrupted_script_promotions_are_made_good() {
    let value = json(
        r#"{"source":"s","sourceBackup":"sb","target":"t","staged":"st","project":"p","projectBackup":"pb","stagedProject":"sp"}"#,
    );
    let promotion = read_promotion(&value).unwrap();
    let facts = PromotionFacts {
        source: false,
        source_backup: false,
        target: false,
        staged: false,
        project: true,
        project_backup: false,
        staged_project: true,
    };
    let forward = recover_promotion(&promotion, PromotionFacts { staged: true, ..facts }).unwrap();
    assert_eq!(forward.len(), 6);
    assert!(matches!(&forward[0], FileStep::Rename { from, to } if from == "p" && to == "pb"));
    let back = recover_promotion(
        &promotion,
        PromotionFacts { source_backup: true, project_backup: true, ..facts },
    )
    .unwrap();
    assert!(matches!(&back[2], FileStep::Rename { from, to } if from == "sb" && to == "s"));
    assert_eq!(
        recover_promotion(&promotion, facts).unwrap_err().message,
        "Carbon script-promotion transaction cannot be recovered"
    );
    let wrong = json(r#"{"source":"s","sourceBackup":"sb","target":"t","staged":"st","project":1}"#);
    assert_eq!(read_promotion(&wrong).unwrap_err().message, "recovery journal has invalid project");
}

#[test]
fn promotions_collect_their_domains_and_backups() {
    let mut identities = vec![domain()];
    let domains = promotion_domains(None, Some(domain()), &mut identities);
    assert_eq!(domains.len(), 2);
    assert!(identities.is_empty());
    let retired = vec![Retirement { target: "old".to_owned(), backup: "aside".to_owned() }];
    assert_eq!(promotion_backups(&domains, &retired), parts(&["backup", "backup", "aside"]));
    assert!(!conclude_failed_promotion(Ok(())).keep_staged);
    assert!(conclude_failed_promotion(Err("broken".to_owned())).keep_staged);
    assert_eq!(studio_staging(true, false, false).unwrap(), StudioStaging::Validated);
    assert_eq!(studio_staging(false, true, false).unwrap(), StudioStaging::Unfiltered);
    assert_eq!(studio_staging(false, false, false).unwrap(), StudioStaging::Filtered);
    assert!(studio_staging(false, false, true).is_err());
    let active = Some(b"same".to_vec());
    assert!(!promotes_studio(StudioStaging::Filtered, true, &active, b"same", false).unwrap());
    assert!(promotes_studio(StudioStaging::Filtered, true, &None, b"same", false).unwrap());
    assert!(promotes_studio(StudioStaging::Validated, true, &active, b"same", false).unwrap());
    let facts = |source_there, target_there| OutputFacts {
        output: Output { source: "stage/a".to_owned(), target: "a".to_owned() },
        source_there,
        target_there,
    };
    assert_eq!(new_project_outputs(&vec![facts(true, false), facts(false, true)]).unwrap().len(), 1);
    assert_eq!(
        new_project_outputs(&vec![facts(true, true)]).unwrap_err().message,
        "transaction output collision: a"
    );
    assert_eq!(transaction_journal("game.carbon.json"), ".game.carbon.json.transaction.json");
    assert_eq!(transaction_stage(10), format!(".carbon-stage-{:032x}", 10));
    assert_eq!(capture_backup("data", 10), format!(".data.capture-backup-{:032x}", 10));
}

#[test]
fn toml_modules_become_lua_tables() {
    let value = TomlValue::Table(vec![
        TomlField { key: "name".to_owned(), value: TomlValue::Text("a \"quoted\"\nline\\".to_owned()) },
        TomlField {
            key: "end".to_owned(),
            value: TomlValue::List(vec![TomlValue::Integer(1), TomlValue::Boolean(true)]),
        },
        TomlField { key: "inner".to_owned(), value: TomlValue::Table(vec![]) },
    ]);
    assert_eq!(
        toml_module_source(&value),
        "return {\n\tname = \"a \\\"quoted\\\"\\nline\\\\\",\n\t[\"end\"] = {1, true},\n\tinner = {\n\t},\n}"
    );
    for (value, expected) in [
        (TomlValue::Integer(-12), "-12".to_owned()),
        (TomlValue::Integer(0), "0".to_owned()),
        (TomlValue::Integer(9_007_199_254_740_992), "9007199254740992".to_owned()),
        (TomlValue::Integer(9_007_199_254_740_993), "9007199254740992".to_owned()),
        (TomlValue::Integer(i64::MAX), (i64::MAX as f64).to_string()),
        (TomlValue::Integer(i64::MIN), (i64::MIN as f64).to_string()),
        (TomlValue::Float("1.5".to_owned()), "1.5".to_owned()),
        (TomlValue::Float("NaN".to_owned()), "0/0".to_owned()),
        (TomlValue::Float("inf".to_owned()), "math.huge".to_owned()),
        (TomlValue::Float("-inf".to_owned()), "-math.huge".to_owned()),
        (TomlValue::Date("1979-05-27".to_owned()), "\"1979-05-27\"".to_owned()),
    ] {
        assert_eq!(toml_module_source(&value), format!("return {expected}"));
    }
    assert!(is_lua_identifier("_a1"));
    for word in ["", "1a", "and", "a-b", "\u{e9}"] {
        assert!(!is_lua_identifier(word));
    }
}

#[test]
fn toml_files_are_modules_and_other_files_are_source() {
    let read = |name: &str, text: &str| read_script_source(name, &format!("/root/{name}"), text.to_owned());
    assert_eq!(read("Main.luau", "a = [").unwrap(), "a = [");
    assert_eq!(
        read("a.toml", "z = inf\na = -0.25\nnan = nan\nday = 1979-05-27\nbig = 9007199254740993\n").unwrap(),
        "return {\n\ta = -0.25,\n\tbig = 9007199254740992,\n\tday = \"1979-05-27\",\n\tnan = 0/0,\n\tz = math.huge,\n}"
    );
    assert_eq!(read("empty.toml", "").unwrap(), "return {\n}");
    let refused = read("a.toml", "a = [").unwrap_err().message;
    assert!(refused.starts_with("failed to parse TOML module /root/a.toml: "));
    assert!(refused.len() > "failed to parse TOML module /root/a.toml: ".len());
}

#[test]
fn documents_are_printed_with_a_line_break() {
    let document = Json::Object(vec![
        JsonField { key: "name".to_owned(), value: Json::String("Game".to_owned()) },
        JsonField { key: "count".to_owned(), value: Json::Number("2".to_owned()) },
        JsonField { key: "list".to_owned(), value: Json::Array(vec![Json::Null, Json::Bool(true)]) },
    ]);
    assert_eq!(
        String::from_utf8(document_bytes(&document).unwrap()).unwrap(),
        "{\n  \"count\": 2,\n  \"list\": [\n    null,\n    true\n  ],\n  \"name\": \"Game\"\n}\n"
    );
    assert!(document_bytes(&Json::Number("two".to_owned())).is_err());
}

#[test]
fn journals_that_are_written_are_read_back() {
    let domain = || Domain { staged: "/s".to_owned(), target: "/t".to_owned(), backup: "/b".to_owned() };
    let retirement = Retirement { target: "/old".to_owned(), backup: "/kept".to_owned() };
    let bytes = document_bytes(&capture_journal(&vec![domain()], &vec![retirement])).unwrap();
    let document = load_journal(&bytes).unwrap();
    match read_journal(&document).unwrap() {
        Journal::CaptureData { domains, retirements } => {
            assert_eq!(domains.len(), 1);
            let read = read_domain(&domains[0]).unwrap();
            assert_eq!((read.staged.as_str(), read.target.as_str(), read.backup.as_str()), ("/s", "/t", "/b"));
            let read = read_retirement(&retirements.unwrap()[0]).unwrap();
            assert_eq!((read.target.as_str(), read.backup.as_str()), ("/old", "/kept"));
        }
        other => panic!("{other:?}"),
    }
    let bytes = document_bytes(&replacement_journal(&domain())).unwrap();
    let document = load_journal(&bytes).unwrap();
    assert!(matches!(read_journal(&document).unwrap(), Journal::Replacement));
    assert_eq!(read_replacement(&document).unwrap().staged, "/s");
    let output = |source: &str, target: &str| Output { source: source.to_owned(), target: target.to_owned() };
    let bytes = document_bytes(&new_project_journal(
        &output("/stage/p", "/p"),
        &output("/stage/d", "/d"),
        &vec![output("/stage/a", "/a")],
    ))
    .unwrap();
    let document = load_journal(&bytes).unwrap();
    match read_journal(&document).unwrap() {
        Journal::CreateProject { outputs } => {
            assert_eq!(read_move(&outputs[0], "source", "target").unwrap().target, "/a");
        }
        other => panic!("{other:?}"),
    }
    assert_eq!(read_move(&document, "stagedData", "targetData").unwrap().source, "/stage/d");
    assert_eq!(read_move(&document, "stagedProject", "targetProject").unwrap().target, "/p");
}

#[test]
fn new_projects_stand_where_nothing_is() {
    let standing = |path: &str, there: bool| Standing { path: path.to_owned(), there };
    let path = parts(&["/", "game", "game.carbon.json"]);
    let begin = |project: bool, data: bool, outputs: Vec<Standing>, beginning: Beginning| {
        admit_new_project(
            &path,
            &standing("/game/game.carbon.json", project),
            &standing("/game/game.carbon.data", data),
            &outputs,
            beginning,
        )
        .map_err(|error| error.message)
    };
    let outputs = || vec![standing("/game/a", false), standing("/game/b", true), standing("/game/c", true)];
    assert_eq!(begin(false, false, vec![standing("/game/a", false)], Beginning::Starter), Ok(()));
    assert_eq!(
        begin(true, true, outputs(), Beginning::Starter).unwrap_err(),
        "Carbon project already exists: /game/game.carbon.json"
    );
    assert_eq!(
        begin(false, true, outputs(), Beginning::Starter).unwrap_err(),
        "Carbon data directory already exists: /game/game.carbon.data"
    );
    assert_eq!(
        begin(false, false, outputs(), Beginning::Starter).unwrap_err(),
        "starter source path already exists: /game/b"
    );
    assert_eq!(
        begin(false, false, outputs(), Beginning::Extraction).unwrap_err(),
        "extraction output collision: /game/b"
    );
    assert_eq!(
        admit_new_project(
            &parts(&["game.json"]),
            &standing("game.json", true),
            &standing("game.data", true),
            &outputs(),
            Beginning::Starter,
        )
        .unwrap_err()
        .message,
        "output must be a .carbon.json project"
    );
}

#[test]
fn reference_properties_are_read_as_identities() {
    let mut known = TextMap::new();
    known.insert("Adornee".to_owned(), PropertyInfo { restricted: false, serializes: true, reference: true });
    known.insert("Text".to_owned(), PropertyInfo { restricted: false, serializes: true, reference: false });
    let mut classes = TextMap::new();
    classes.insert(
        "Base".to_owned(),
        ClassInfo { superclass: None, service: false, properties: known, defaults: TextMap::new() },
    );
    classes.insert(
        "Label".to_owned(),
        ClassInfo {
            superclass: Some("Base".to_owned()),
            service: false,
            properties: TextMap::new(),
            defaults: TextMap::new(),
        },
    );
    let reflection = Reflection { classes };
    let resolve = |property: &str, value: DeclaredValue| {
        resolve_mapped_property(&reflection, "Label", property, &value, Ok(text("kept")))
    };
    let target = |value: DeclaredValue| match resolve("Adornee", value).unwrap() {
        Variant::Ref(target) => target,
        other => panic!("{other:?}"),
    };
    assert_eq!(target(DeclaredValue::Reference(7)), 7);
    assert_eq!(target(DeclaredValue::Text("00000000000000000000000000000010".to_owned())), 16);
    assert_eq!(target(DeclaredValue::Text("door".to_owned())), stable_ref("id:door"));
    assert_eq!(target(DeclaredValue::Text("null".to_owned())), 0);
    assert_eq!(target(DeclaredValue::Text(String::new())), 0);
    assert_eq!(
        resolve("Adornee", DeclaredValue::Other).unwrap_err().message,
        "reference property Label.Adornee must be a filesystem identity or manifest identity string"
    );
    assert!(matches!(resolve("Text", DeclaredValue::Reference(7)), Ok(Variant::String(kept)) if kept == "kept"));
    assert_eq!(
        resolve_mapped_property(&reflection, "Label", "Text", &DeclaredValue::Other, Err("no number".to_owned()))
            .unwrap_err()
            .message,
        "failed to resolve mapped property Label.Text: no number"
    );
}

#[test]
fn mapped_paths_are_cleaned_by_their_components() {
    for root in ["", ".", "/", "//a", "/game", "/game/", "game/./src", "../game", "..", "/..", "a/../..", "/a//b/.."] {
        for relative in ["a", "a/", "./a//b", "../a", "a/../..", "a/./../b", "..", "../..", "a/../../../b", "a..b/.c"] {
            let path = std::path::Path::new(root).join(relative);
            assert_eq!(
                clean_below(root, relative, false),
                path_clean::clean(&path).to_str().unwrap(),
                "{root} {relative}"
            );
        }
    }
    for (root, relative, expected) in [
        ("C:\\game", "src/Main.luau", "C:\\game\\src\\Main.luau"),
        ("C:/game/", "..\\..\\..\\lib", "C:\\lib"),
        ("C:game", "..\\..\\lib", "C:..\\lib"),
        ("C:", "a", "C:a"),
        ("\\\\server\\share\\game", "..\\..\\lib", "\\\\server\\share\\lib"),
        ("\\\\server\\share", "a/b", "\\\\server\\share\\a\\b"),
        ("\\game", "./src", "\\game\\src"),
        ("game", "..", "."),
        ("", "../a", "..\\a"),
    ] {
        assert_eq!(clean_below(root, relative, true), expected, "{root} {relative}");
    }
    assert_eq!(resolve_mapped_path("C:\\game", "src/a", true).unwrap(), "C:\\game\\src\\a");
    assert_eq!(resolve_mapped_path("/game", "src\\a", false).unwrap(), "/game/src\\a");
}

fn extractable() -> Snapshot {
    node(1, "DataModel", "Game").with_properties(properties(vec![("Value", Variant::Ref(11))])).with_children(vec![
        node(2, "ReplicatedStorage", "ReplicatedStorage").with_children(vec![
            node(11, "ModuleScript", "Needed").with_properties(properties(vec![("Source", text("return 1"))])),
            node(10, "ModuleScript", "Alone").with_properties(properties(vec![("Source", text("return 2"))])),
            node(12, "Folder", "Empty"),
            node(13, "Folder", "Mixed").with_children(vec![node(14, "Part", "Block"), node(15, "Script", "S")]),
        ]),
        node(3, "StarterPlayer", "StarterPlayer").with_children(vec![node(
            4,
            "StarterPlayerScripts",
            "StarterPlayerScripts",
        )
        .with_children(vec![node(16, "LocalScript", "Client")])]),
    ])
}

#[test]
fn scripts_that_can_stand_on_disk_are_extracted() {
    let place = extractable();
    let plan = plan_script_extraction(&place, &reflection());
    let outputs = plan.entries.iter().map(|entry| entry.output.clone()).collect::<Vec<Vec<String>>>();
    assert_eq!(
        outputs,
        vec![
            parts(&["src", "ReplicatedStorage", "Alone.luau"]),
            parts(&["src", "ReplicatedStorage", "Needed"]),
            parts(&["src", "StarterPlayer", "StarterPlayerScripts", "Client.client.luau"]),
        ]
    );
    assert_eq!(plan.required_ids, HashSet::from([11]));
    let mixed = &place.children[0].children[3];
    assert!(contains_script(mixed));
    assert!(!is_filesystem_representable(mixed));
    let twins = node(5, "Folder", "F").with_children(vec![node(6, "Folder", "a"), node(7, "Folder", "A")]);
    assert!(!is_filesystem_representable(&twins));

    let mut writes = Vec::new();
    let needed = &place.children[0].children[0];
    write_mapped_snapshot(needed, &parts(&["src", "Needed"]), &plan.required_ids, &reflection(), &mut writes).unwrap();
    assert_eq!(writes.len(), 3);
    assert!(matches!(&writes[1], SourceWrite::Text { path, contents }
        if path == &parts(&["src", "Needed", "init.luau"]) && contents == "return 1"));
    assert!(matches!(&writes[2], SourceWrite::Meta { persist_id: true, .. }));
}

#[test]
fn metadata_leaves_out_defaults_and_sources() {
    let script = node(1, "ModuleScript", "M").with_properties(properties(vec![
        ("Source", text("return 1")),
        ("Archivable", Variant::boolean(true)),
        ("Value", text("kept")),
        ("Unknown", text("dropped")),
    ]));
    let kept = metadata_properties(&script, &reflection());
    assert_eq!(kept.len(), 1);
    assert!(kept.get("Value").unwrap().same(&text("kept")));
    assert_eq!(representation_name(&script, &HashSet::new(), &reflection()), "M");
    assert_eq!(script_source(&script).unwrap(), "return 1");
    let binary =
        node(1, "Script", "S").with_properties(properties(vec![("Source", Variant::BinaryString(vec![255]))]));
    assert_eq!(script_source(&binary).unwrap_err().message, "script S has non-UTF-8 Source");
    let strange = node(1, "Script", "S").with_properties(properties(vec![("Source", Variant::boolean(true))]));
    assert_eq!(script_source(&strange).unwrap_err().message, "script S has an invalid Source value");
}

fn facts(name: &str) -> BuildFacts<'_> {
    BuildFacts { os: "linux", arch: "x86_64", studio: "studio", project_name: name }
}

fn field(name: &str, value: &[u8]) -> Vec<u8> {
    let mut bytes = (name.len() as u64).to_le_bytes().to_vec();
    bytes.extend(name.as_bytes());
    bytes.extend((value.len() as u64).to_le_bytes());
    bytes.extend(value);
    bytes
}

#[test]
fn builds_are_known_by_everything_that_goes_into_them() {
    let mut bytes = b"carbon-build-cache-v1\0".to_vec();
    bytes.extend(field("schema", &4_u32.to_le_bytes()));
    bytes.extend(field("os", b"linux"));
    bytes.extend(field("arch", b"x86_64"));
    bytes.extend(field("studio", b"studio"));
    bytes.extend(field("projectName", b"Game"));
    bytes.extend(field("mappedSource", b"direct"));
    bytes.extend(field("mode", b"managed"));
    bytes.extend(field("identityExclusion", format!("{:032x}", 7).as_bytes()));
    let key = build_cache_key(&facts("Game"), &None, &Some(vec![7]));
    assert_eq!(key, blake3::hash(&bytes).to_hex().to_string());
    assert_ne!(key, build_cache_key(&facts("Game"), &None, &None));
    assert_ne!(key, build_cache_key(&facts("Other"), &None, &Some(vec![7])));
    assert_ne!(build_layer_key(&facts("Game"), "a"), build_layer_key(&facts("Game"), "b"));
    assert_eq!(source_generation(b"source"), blake3::hash(b"source").to_hex().to_string());

    let cached = CachedBuild { schema: 4, key: "key".to_owned(), bytes: 3, hash: "hash".to_owned() };
    assert!(is_cached(&cached, "key", 3, "hash"));
    assert!(!is_cached(&cached, "key", 4, "hash"));
    assert!(!is_cached(&cached, "other", 3, "hash"));
    assert_eq!(check_copy(3, "a", 3, "b", "changed").unwrap_err().message, "changed");
    assert!(check_copy(3, "a", 3, "a", "changed").is_ok());
}

#[test]
fn cached_layers_get_the_scripts_of_now() {
    let scripts = vec![
        MappedScriptSource { id: 2, source: b"two".to_vec() },
        MappedScriptSource { id: 1, source: b"one".to_vec() },
    ];
    let position = |class: &str, index| SerializedInstancePosition { class_name: class.to_owned(), index };
    let compiled = HashMap::from([(1, position("Script", 5)), (2, position("ModuleScript", 6))]);
    let positions = script_positions(&scripts, &compiled).unwrap();
    assert_eq!(positions.iter().map(|position| position.index).collect::<Vec<u32>>(), vec![5, 6]);
    let patches = stage_cached_source_layer(&scripts, &positions).unwrap();
    assert_eq!((patches[0].index, patches[0].source.as_slice()), (5, b"one".as_slice()));
    assert!(stage_cached_source_layer(&scripts, &Vec::new()).is_none());
    let foreign = vec![
        CachedScriptPosition { source_id: ref_text(1), class_name: "Script".to_owned(), index: 5 },
        CachedScriptPosition { source_id: ref_text(9), class_name: "Script".to_owned(), index: 6 },
    ];
    assert!(stage_cached_source_layer(&scripts, &foreign).is_none());
    assert!(script_positions(&scripts, &HashMap::new()).unwrap_err().message.contains("omitted mapped script"));
    let wrong = HashMap::from([(1, position("Part", 5)), (2, position("Part", 6))]);
    assert!(script_positions(&scripts, &wrong).unwrap_err().message.contains("non-script class Part"));
}

#[test]
fn structure_forgets_the_sources_of_scripts() {
    let place = |source: &str| {
        node(1, "Folder", "F").with_children(vec![
            node(2, "Script", "S").with_properties(properties(vec![("Source", text(source))]))
        ])
    };
    let mut scripts = Vec::new();
    let structure = collect_scripts(&place("a"), &mut scripts).unwrap();
    assert!(!structure.children[0].properties.contains_key("Source"));
    assert_eq!(scripts[0].source, b"a");
    let other = collect_scripts(&place("b"), &mut Vec::new()).unwrap();
    assert_eq!(format!("{other:?}"), format!("{structure:?}"));
    let broken = node(2, "Script", "S").with_properties(properties(vec![("Source", Variant::boolean(true))]));
    assert!(collect_scripts(&broken, &mut Vec::new()).is_err());
}

#[test]
fn builds_use_the_cache_only_while_it_is_current() {
    let key = || Some("key".to_owned());
    let (mut run, first) = CompileRun::new(true, false, "key".to_owned(), Some("source".to_owned()));
    assert!(matches!(first, CompileAction::StageCached));
    let stale = CompileEvent::Staged { found: true, ready: true, key: Some("other".to_owned()) };
    assert!(matches!(run.advance(stale), CompileAction::StageLayer));
    let current = CompileEvent::Staged { found: true, ready: true, key: key() };
    assert!(matches!(run.advance(current), CompileAction::Rename));
    assert!(matches!(run.advance(CompileEvent::Renamed(false)), CompileAction::CompileTree));
    assert!(matches!(run.advance(CompileEvent::Compiled(true)), CompileAction::ReadSource));
    assert!(matches!(run.advance(CompileEvent::Source(Some("source".to_owned()))), CompileAction::ReadKey));
    assert!(matches!(
        run.advance(CompileEvent::Key(Some("after".to_owned()))),
        CompileAction::Return { store: Some(stored), store_layer: true } if stored == "after"
    ));

    let (mut direct, _) = CompileRun::new(false, true, "key".to_owned(), None);
    let missing = CompileEvent::Staged { found: false, ready: true, key: key() };
    assert!(matches!(direct.advance(missing), CompileAction::CompileDirect));
    assert!(matches!(direct.advance(CompileEvent::Compiled(true)), CompileAction::ReadKey));
    assert!(matches!(
        direct.advance(CompileEvent::Key(None)),
        CompileAction::Return { store: None, store_layer: false }
    ));

    let (mut failed, _) = CompileRun::new(false, false, "key".to_owned(), None);
    failed.advance(CompileEvent::Staged { found: false, ready: true, key: None });
    assert!(matches!(failed.advance(CompileEvent::Compiled(false)), CompileAction::Fail));
    assert!(conclude_tree_build(Ok(()), Ok(())).is_ok());
    assert_eq!(
        conclude_tree_build(Ok(()), Err("busy".to_owned())).unwrap_err().message,
        "failed to clean composed source staging: busy"
    );
    assert_eq!(conclude_tree_build(Err("broken".to_owned()), Ok(())).unwrap_err().message, "broken");
}

fn path_at<'a>(scripts: &'a Vec<ScriptPath>, route: &[&str]) -> Option<&'a str> {
    find_script(scripts, &parts(route)).map(|path| path.as_str())
}

#[test]
fn scripts_are_found_by_their_route() {
    let scripts = collect_project_script_paths(&project_tree(), &Vec::new()).unwrap();
    assert_eq!(path_at(&scripts, &["ReplicatedStorage", "Shared", "Main"]), Some("src/Shared/Main.luau"));
    assert_eq!(path_at(&scripts, &["ServerScriptService", "Server"]), Some("src/Server.server.luau"));
    assert_eq!(path_at(&scripts, &["ReplicatedStorage", "Shared"]), None);
    assert_eq!(scripts.len(), 2);

    let refused = inline(vec![("Data", mapped("data.txt", file("/game/data.txt", "")))]);
    assert_eq!(
        collect_project_script_paths(&refused, &Vec::new()).unwrap_err().message(),
        "unsupported mapped source file data.txt"
    );
    let nameless = directory("/game/src", vec![entry("/game/src/.luau", EntryKind::Text(String::new()))]);
    assert_eq!(
        collect_directory_script_paths(&nameless, "src", &Vec::new()).unwrap_err().message(),
        "script file has no Roblox name: .luau"
    );
}

#[test]
fn nested_projects_take_the_place_of_their_directory() {
    let inner = directory(
        "/game/packages/fusion/src",
        vec![
            entry("/game/packages/fusion/src/Child.luau", EntryKind::Text("return 2".to_owned())),
            entry("/game/packages/fusion/src/init.luau", EntryKind::Text("return 1".to_owned())),
        ],
    );
    let mut fusion = directory(
        "/game/packages/fusion",
        vec![entry("/game/packages/fusion/ignored.luau", EntryKind::Text("return 3".to_owned()))],
    );
    let mut tree = mapped("src", Source::Directory(inner));
    let mut absent = mapped("gone", Source::Missing("/game/packages/fusion/gone".to_owned()));
    assert_eq!(
        collect_project_script_paths(&absent, &Vec::new()).unwrap_err().message(),
        "failed to inspect mapped path /game/packages/fusion/gone"
    );
    absent.optional = true;
    absent.children = vec![SourceChild {
        name: "Below".to_owned(),
        node: mapped("below.luau", file("/game/packages/fusion/below.luau", "")),
    }];
    tree.children = vec![SourceChild { name: "Absent".to_owned(), node: absent }];
    fusion.project = Some(NestedProject {
        path: "/game/packages/fusion/default.project.json".to_owned(),
        tree: Box::new(tree),
    });
    let packages = directory(
        "/game/packages",
        vec![entry("/game/packages/fusion", EntryKind::Directory(fusion))],
    );
    let scripts = collect_directory_script_paths(&packages, "packages", &Vec::new()).unwrap();
    assert_eq!(path_at(&scripts, &["fusion"]), Some("packages/fusion/src/init.luau"));
    assert_eq!(path_at(&scripts, &["fusion", "Child"]), Some("packages/fusion/src/Child.luau"));
    assert_eq!(path_at(&scripts, &["fusion", "src"]), None);
    assert_eq!(path_at(&scripts, &["fusion", "ignored"]), None);
    assert_eq!(path_at(&scripts, &["fusion", "Absent", "Below"]), None);
}

fn written(value: &Json) -> serde_json::Value {
    match value {
        Json::Null => serde_json::Value::Null,
        Json::Bool(value) => serde_json::Value::Bool(*value),
        Json::Number(number) => serde_json::from_str(number).unwrap(),
        Json::String(text) => serde_json::Value::String(text.clone()),
        Json::Array(list) => serde_json::Value::Array(list.iter().map(written).collect()),
        Json::Object(fields) => serde_json::Value::Object(
            fields.iter().map(|field| (field.key.clone(), written(&field.value))).collect(),
        ),
    }
}

#[test]
fn source_maps_list_the_files_of_the_project() {
    let scripts = vec![ScriptPath { route: parts(&["Shared", "Main"]), path: "src/Main.luau".to_owned() }];
    let map =
        "{\"name\":\"Game\",\"filePaths\":[\"old\"],\"children\":[\
         {\"name\":\"Shared\",\"filePaths\":[\"old\"],\"children\":[{\"name\":\"Main\",\"className\":\"ModuleScript\"}]},\
         {\"filePaths\":[\"kept\"]}]}";
    let expected: serde_json::Value = serde_json::from_str(
        "{\"name\":\"Game\",\"filePaths\":[\"game.project.json\"],\"children\":[\
         {\"name\":\"Shared\",\"children\":[{\"name\":\"Main\",\"className\":\"ModuleScript\",\"filePaths\":[\"src/Main.luau\"]}]},\
         {\"filePaths\":[\"kept\"]}]}",
    )
    .unwrap();
    let listed = relist_map(map.as_bytes(), &scripts, &"game.project.json".to_owned()).unwrap();
    assert_eq!(written(&listed), expected);
    assert!(relist_map(b"{", &scripts, &"game.project.json".to_owned()).is_err());
}

#[test]
fn links_and_mapped_paths_outside_the_project_are_watched() {
    let project = parts(&["/", "game"]);
    assert!(matches!(mapped_watch_root(&project, &parts(&["/", "game", "src"]), true), MappedRoot::Inside));
    match mapped_watch_root(&project, &parts(&["/", "shared", "Main.luau"]), false) {
        MappedRoot::Watched(root) => assert_eq!(root, parts(&["/", "shared"])),
        other => panic!("unexpected {other:?}"),
    }
    assert!(matches!(mapped_watch_root(&project, &parts(&["/"]), false), MappedRoot::NoParent));
    assert_eq!(linked_watch_root(&parts(&["/", "shared"]), true), Some(parts(&["/", "shared"])));
    assert_eq!(linked_watch_root(&parts(&["/", "shared"]), false), Some(parts(&["/"])));

    let entered = vec![parts(&["/", "game", "src"]), parts(&["/", "shared"])];
    assert_eq!(find_active_ancestor(&entered, &parts(&["/", "shared"])), Some(1));
    assert_eq!(find_active_ancestor(&entered, &parts(&["/", "game"])), None);
}
