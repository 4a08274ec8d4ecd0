use std::collections::HashSet;

use carbon::place::PlaceStructure;
use carbon::place_diff::{compare, DiffReport, Impact};
use carbon::reflection::{ClassInfo, Reflection};
use carbon::snapshot::Snapshot;
use carbon::text_map::TextMap;
use carbon::variant::{AttributeValue, Properties, Variant};
use carbon::{Ref, NO_REF};

const IDENTITY: &str = "__CarbonManifestIdentity";

fn reflection() -> Reflection {
    let mut classes = TextMap::new();
    classes.insert(
        "Instance".to_owned(),
        ClassInfo {
            superclass: None,
            service: false,
            properties: TextMap::new(),
            defaults: properties(vec![
                ("Archivable", Variant::boolean(true)),
                ("Attributes", Variant::Attributes(TextMap::new())),
            ]),
        },
    );
    for (name, service) in [
        ("DataModel", false),
        ("Folder", false),
        ("Script", false),
        ("StringValue", false),
        ("ObjectValue", false),
        ("StyleSheet", false),
        ("HttpService", true),
        ("SoundService", true),
        ("StylingService", true),
        ("Lighting", true),
        ("Workspace", true),
        ("ServerStorage", true),
        ("InsertService", true),
    ] {
        classes.insert(
            name.to_owned(),
            ClassInfo {
                superclass: Some("Instance".to_owned()),
                service,
                properties: TextMap::new(),
                defaults: TextMap::new(),
            },
        );
    }
    Reflection { classes }
}

fn properties(entries: Vec<(&str, Variant)>) -> Properties {
    let mut properties = TextMap::new();
    for (name, value) in entries {
        properties.insert(name.to_owned(), value);
    }
    properties
}

fn attributes(entries: Vec<(&str, AttributeValue)>) -> Variant {
    let mut attributes = TextMap::new();
    for (name, value) in entries {
        attributes.insert(name.to_owned(), value);
    }
    Variant::Attributes(attributes)
}

fn bytes(text: &str) -> AttributeValue {
    AttributeValue::BinaryString(text.as_bytes().to_vec())
}

fn flag(value: bool) -> AttributeValue {
    AttributeValue::Opaque { kind: "Bool".to_owned(), bytes: vec![value as u8] }
}

fn int32(value: u32) -> AttributeValue {
    AttributeValue::Opaque { kind: "Int32".to_owned(), bytes: value.to_le_bytes().to_vec() }
}

fn text(value: &str) -> Variant {
    Variant::String(value.to_owned())
}

fn instance(id: Ref, class: &str, name: &str) -> Snapshot {
    Snapshot::new().with_id(id).with_class(class).with_name(name)
}

fn place_with_clock(path: &str, children: Vec<Snapshot>, clock_agrees: HashSet<u128>) -> PlaceStructure {
    PlaceStructure::load(
        path.to_owned(),
        &instance(1, "DataModel", "DataModel").with_children(children),
        TextMap::new(),
        IDENTITY.to_owned(),
        clock_agrees,
        &reflection(),
    )
}

fn place(path: &str, children: Vec<Snapshot>) -> PlaceStructure {
    place_with_clock(path, children, HashSet::new())
}

fn report(left: Vec<Snapshot>, right: Vec<Snapshot>) -> DiffReport {
    compare(&place("left.rbxl", left), &place("right.rbxl", right), &reflection(), 100)
}

#[test]
fn gameplay_property_changes_block_while_unique_ids_and_order_do_not() {
    let value = |id: Ref, value: &str, unique: u8| {
        instance(id, "StringValue", "A").with_properties(properties(vec![
            ("Value", text(value)),
            ("UniqueId", Variant::plain("UniqueId", vec![unique; 16])),
        ]))
    };
    let report = report(
        vec![value(2, "before", 1), instance(3, "Folder", "B")],
        vec![instance(12, "Folder", "B"), value(13, "after", 4)],
    );
    assert_eq!(report.blocking_differences, 1);
    assert!(report.non_gameplay_differences >= 2);
    assert!(report
        .differences
        .iter()
        .any(|difference| difference.property.as_deref() == Some("Value")
            && difference.impact == Impact::PotentialGameplay));
    assert!(report.differences.iter().any(|difference| difference.kind == "unique_id"));
    assert!(report.differences.iter().any(|difference| difference.kind == "instance_order"));
}

#[test]
fn identical_places_have_no_differences() {
    let path = place("identical.rbxl", vec![instance(2, "Folder", "Same")]);
    let report = compare(&path, &path, &reflection(), 100);
    assert_eq!(report.blocking_differences, 0);
    assert_eq!(report.non_gameplay_differences, 0);
}

#[test]
fn engine_default_service_shell_presence_is_non_gameplay() {
    let report = report(
        vec![
            instance(2, "HttpService", "HttpService"),
            instance(3, "SoundService", "SoundService")
                .with_properties(properties(vec![("ListenerObject", Variant::Ref(NO_REF))])),
        ],
        vec![],
    );
    assert_eq!(report.blocking_differences, 0);
    assert_eq!(report.non_gameplay_differences, 2);
    assert!(report.differences.iter().any(|difference| {
        difference.kind == "instance_removed"
            && difference.path.contains("HttpService")
            && difference.impact == Impact::NonGameplay
    }));
}

#[test]
fn default_hydrated_lighting_shell_is_non_gameplay_but_authored_values_block() {
    let lighting = |brightness: f32| {
        vec![instance(2, "Lighting", "Lighting").with_properties(properties(vec![
            ("Brightness", Variant::float32(brightness.to_bits())),
            ("Technology", Variant::enumeration(2)),
            ("Attributes", attributes(vec![("RBX_LightingTechnologyUnifiedMigration", flag(true))])),
        ]))]
    };
    let default_report = report(lighting(1.0), vec![]);
    assert_eq!(default_report.blocking_differences, 0);
    assert_eq!(default_report.non_gameplay_differences, 1);
    let modified_report = report(lighting(2.0), vec![]);
    assert_eq!(modified_report.blocking_differences, 1);
}

#[test]
fn reordered_duplicate_siblings_match_by_subtree_without_blocking() {
    let duplicate_with_child = |id: Ref, child_name: &str| {
        instance(id, "Folder", "Duplicate").with_children(vec![instance(id + 1, "Folder", child_name)])
    };
    let report = report(
        vec![duplicate_with_child(2, "A"), duplicate_with_child(4, "B")],
        vec![duplicate_with_child(12, "B"), duplicate_with_child(14, "A")],
    );
    assert_eq!(report.blocking_differences, 0);
    assert_eq!(report.added_instances, 0);
    assert_eq!(report.removed_instances, 0);
    assert!(report.differences.iter().any(|difference| difference.kind == "instance_order"));
}

#[test]
fn reordered_duplicate_reference_holders_match_by_target_identity() {
    let reference_fixture = |base: Ref, reversed: bool| {
        let holder = |id: Ref, target: Ref| {
            instance(id, "ObjectValue", "Duplicate").with_properties(properties(vec![("Value", Variant::Ref(target))]))
        };
        let value_a = holder(base + 2, base);
        let value_b = holder(base + 3, base + 1);
        let mut children = vec![instance(base, "Folder", "Target"), instance(base + 1, "Folder", "Target")];
        if reversed {
            children.push(value_b);
            children.push(value_a);
        } else {
            children.push(value_a);
            children.push(value_b);
        }
        children
    };
    let report = report(reference_fixture(2, false), reference_fixture(22, true));
    assert_eq!(report.blocking_differences, 0);
    assert_eq!(report.added_instances, 0);
    assert_eq!(report.removed_instances, 0);
    assert!(report.differences.iter().any(|difference| difference.kind == "instance_order"));
}

#[test]
fn reordered_reference_correspondence_converges_through_deep_chains() {
    let deep_reference_fixture = |base: Ref, reverse_first_level: bool| {
        let mut previous = (base, base + 1);
        let mut children = vec![instance(base, "Folder", "Target"), instance(base + 1, "Folder", "Target")];
        for level in 1..=6_u128 {
            let name = format!("Level{level}");
            let ids = (base + 2 * level, base + 2 * level + 1);
            let value_a = instance(ids.0, "ObjectValue", &name)
                .with_properties(properties(vec![("Value", Variant::Ref(previous.0))]));
            let value_b = instance(ids.1, "ObjectValue", &name)
                .with_properties(properties(vec![("Value", Variant::Ref(previous.1))]));
            previous = ids;
            if level == 1 && reverse_first_level {
                children.push(value_b);
                children.push(value_a);
            } else {
                children.push(value_a);
                children.push(value_b);
            }
        }
        children
    };
    let report = report(deep_reference_fixture(2, false), deep_reference_fixture(102, true));
    assert_eq!(report.blocking_differences, 0);
    assert_eq!(report.added_instances, 0);
    assert_eq!(report.removed_instances, 0);
    assert!(report.differences.iter().any(|difference| difference.kind == "instance_order"));
}

#[test]
fn authored_styling_service_content_is_gameplay_affecting() {
    let report = report(
        vec![instance(2, "StylingService", "StylingService")],
        vec![instance(12, "StylingService", "StylingService")
            .with_children(vec![instance(13, "StyleSheet", "GameplayTheme")])],
    );
    assert_eq!(report.blocking_differences, 1);
    assert!(report.differences.iter().any(|difference| {
        difference.path.contains("GameplayTheme") && difference.impact == Impact::PotentialGameplay
    }));
}

#[test]
fn authored_filtered_selection_collision_is_gameplay_affecting() {
    let report = report(
        vec![],
        vec![instance(12, "Instance", "FilteredSelection")
            .with_children(vec![instance(13, "StringValue", "AuthoredValue")])],
    );
    assert_eq!(report.blocking_differences, 1);
}

#[test]
fn proven_non_archivable_filtered_selection_is_non_gameplay() {
    let report = report(
        vec![],
        vec![instance(12, "Instance", "FilteredSelection")
            .with_properties(properties(vec![("Archivable", Variant::boolean(false))]))],
    );
    assert_eq!(report.blocking_differences, 0);
    assert_eq!(report.non_gameplay_differences, 1);
}

#[test]
fn non_archivable_filtered_selection_with_authored_children_blocks() {
    let report = report(
        vec![],
        vec![instance(12, "Instance", "FilteredSelection")
            .with_properties(properties(vec![("Archivable", Variant::boolean(false))]))
            .with_children(vec![instance(13, "StringValue", "AuthoredValue")])],
    );
    assert_eq!(report.blocking_differences, 1);
}

#[test]
fn non_archivable_filtered_selection_with_authored_attributes_blocks() {
    let report = report(
        vec![],
        vec![instance(12, "Instance", "FilteredSelection").with_properties(properties(vec![
            ("Archivable", Variant::boolean(false)),
            ("Attributes", attributes(vec![("GameplayFlag", flag(true))])),
        ]))],
    );
    assert_eq!(report.blocking_differences, 1);
}

#[test]
fn isolated_tool_name_attribute_collisions_remain_blocking() {
    let workspace = |endpoint: &str| {
        vec![instance(2, "Workspace", "Workspace").with_properties(properties(vec![(
            "Attributes",
            attributes(vec![("__StudioWorktree_CarbonEndpoint", bytes(endpoint))]),
        )]))]
    };
    let report = report(workspace("authored-one"), workspace("authored-two"));
    assert_eq!(report.blocking_differences, 1);
}

fn managed_attributes(generation: &str) -> Variant {
    attributes(vec![
        ("__StudioWorktree_CarbonEndpoint", bytes("http://127.0.0.1:48123")),
        ("__StudioWorktree_CarbonProject", bytes("Project")),
        ("__StudioWorktree_CarbonGeneration", bytes(generation)),
        ("__StudioWorktree_Identity", bytes("worktree")),
        ("__StudioWorktree_Session", bytes("session")),
    ])
}

fn managed_workspace(id: Ref, generation: &str) -> Snapshot {
    instance(id, "Workspace", "Workspace")
        .with_properties(properties(vec![("Attributes", managed_attributes(generation))]))
}

fn storage(id: Ref, mcp_id: &str) -> Snapshot {
    instance(id, "ServerStorage", "ServerStorage")
        .with_properties(properties(vec![("Attributes", attributes(vec![("__MCPPlaceId", bytes(mcp_id))]))]))
}

#[test]
fn authored_uuid_shaped_mcp_attribute_remains_blocking() {
    let report = report(
        vec![storage(2, "11111111-1111-4111-8111-111111111111")],
        vec![storage(12, "22222222-2222-4222-8222-222222222222")],
    );
    assert_eq!(report.blocking_differences, 1);
}

#[test]
fn managed_uuid_shaped_mcp_attribute_is_non_gameplay_transport() {
    let managed_place =
        |base: Ref, generation: &str, mcp_id: &str| vec![managed_workspace(base, generation), storage(base + 1, mcp_id)];
    let report = report(
        managed_place(2, &"a".repeat(64), "11111111-1111-4111-8111-111111111111"),
        managed_place(12, &"b".repeat(64), "22222222-2222-4222-8222-222222222222"),
    );
    assert_eq!(report.blocking_differences, 0);
    assert_eq!(report.non_gameplay_differences, 2);
}

#[test]
fn complete_managed_worktree_contract_changes_are_non_gameplay() {
    let report = report(
        vec![managed_workspace(2, &"a".repeat(64))],
        vec![managed_workspace(12, &"b".repeat(64))],
    );
    assert_eq!(report.blocking_differences, 0);
    assert_eq!(report.non_gameplay_differences, 1);
}

fn identified(id: Ref, class: &str, name: &str) -> Snapshot {
    instance(id, class, name).with_properties(properties(vec![(
        "Attributes",
        attributes(vec![(IDENTITY, bytes("0123456789abcdef0123456789abcdef"))]),
    )]))
}

#[test]
fn managed_serializer_identity_and_runtime_artifacts_are_non_gameplay() {
    let managed_place = |base: Ref, include_runtime: bool| {
        let mut insert_service = instance(base + 2, "InsertService", "InsertService");
        if include_runtime {
            insert_service = insert_service.with_children(vec![instance(base + 3, "StringValue", "InsertionHash")
                .with_properties(properties(vec![("Value", text("{8018D819-6E9D-4CEA-8B62-F052D50E8091}"))]))]);
        }
        let mut root = vec![
            managed_workspace(base, &"a".repeat(64)),
            identified(base + 1, "Folder", "Authored"),
            insert_service,
        ];
        if include_runtime {
            root.push(instance(base + 4, "Instance", "FilteredSelection"));
        }
        root
    };
    let report = report(managed_place(2, true), managed_place(12, false));
    assert_eq!(report.blocking_differences, 0);
    assert_eq!(report.removed_instances, 2);
    assert!(report.non_gameplay_differences >= 2);
}

#[test]
fn managed_authored_filtered_selection_identity_still_blocks() {
    let report = report(
        vec![managed_workspace(2, &"a".repeat(64)), identified(3, "Instance", "FilteredSelection")],
        vec![managed_workspace(12, &"a".repeat(64))],
    );
    assert_eq!(report.blocking_differences, 1);
}

fn migrated_lighting(technology: u32, clock_time: Option<f32>, managed: bool) -> PlaceStructure {
    let mut values = vec![
        (
            "Attributes",
            attributes(vec![
                ("RBX_LightingTechnologyUnifiedMigration", flag(true)),
                ("RBX_OriginalTechnologyOnFileLoad", int32(2)),
            ]),
        ),
        ("Technology", Variant::enumeration(technology)),
        ("TimeOfDay", text("14:00:00")),
    ];
    if let Some(clock_time) = clock_time {
        values.push(("ClockTime", Variant::float32(clock_time.to_bits())));
    }
    let lighting = instance(3, "Lighting", "Lighting").with_properties(properties(values));
    let workspace = if managed {
        managed_workspace(2, &"a".repeat(64))
    } else {
        instance(2, "Workspace", "Workspace")
    };
    let agrees = match clock_time {
        None => true,
        Some(clock_time) => (clock_time - 14.0).abs() <= 0.000_1,
    };
    place_with_clock(
        "lighting.rbxl",
        vec![workspace, lighting],
        if agrees { HashSet::from([3]) } else { HashSet::new() },
    )
}

#[test]
fn lighting_migration_file_forms_are_engine_equivalent() {
    let left = migrated_lighting(1, None, true);
    let right = migrated_lighting(2, Some(14.0), false);
    let report = compare(&left, &right, &reflection(), 100);
    assert_eq!(report.blocking_differences, 0);
    assert!(report.non_gameplay_differences >= 2);
}

#[test]
fn lighting_migration_does_not_hide_unrelated_values() {
    let technology_left = migrated_lighting(0, None, true);
    let technology_right = migrated_lighting(1, None, false);
    assert_eq!(compare(&technology_left, &technology_right, &reflection(), 100).blocking_differences, 1);

    let clock_left = migrated_lighting(1, None, true);
    let clock_right = migrated_lighting(1, Some(15.0), false);
    assert_eq!(compare(&clock_left, &clock_right, &reflection(), 100).blocking_differences, 1);
}

#[test]
fn studio_generated_script_guid_is_non_gameplay() {
    let place = |id: Ref, guid: &str| {
        vec![instance(id, "Script", "Server")
            .with_properties(properties(vec![("Source", text("return true")), ("ScriptGuid", text(guid))]))]
    };
    let report = report(place(2, "{5C4C1694-1B60-46EF-9D95-45CD972BFD8A}"), place(12, ""));
    assert_eq!(report.blocking_differences, 0);
    assert_eq!(report.non_gameplay_differences, 1);
}
