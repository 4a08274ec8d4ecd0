use std::collections::{HashMap, HashSet};

use carbon::capture_identity::{reconcile_capture_identities, reconcile_with};
use carbon::hashing::stable_ref;
use carbon::live_policy::LivePolicy;
use carbon::manifest_identity::{ManifestIdentityAllocator, PREFIX_BYTES};
use carbon::place_values::is_default_hydrated_service_property;
use carbon::project_diff::{diff_snapshots, property_values_semantically_equal, SameFrames};
use carbon::project_references::{
    validate_capture_cross_domain_references, validate_no_cross_domain_references, validate_snapshot_references,
    validate_unique_snapshot_ids,
};
use carbon::project_routes::{prune_routes, snapshot_refs_for_routes};
use carbon::project_state::{
    canonical_after_studio_commit, capture_service_anchor, projected_realization_changes_pending,
    projected_realization_generation, retired_source_refs,
};
use carbon::rebinding::{
    managed_build_identity_exclusions, managed_build_identity_rebindings, ManagedIdentityRebindingKind,
};
use carbon::reflection::{ClassInfo, PropertyInfo, Reflection};
use carbon::snapshot::{AddedSnapshot, Changes, Snapshot, UpdatedSnapshot};
use carbon::stable_identities::{stabilize_snapshot_ids, stabilize_with};
use carbon::text::ref_text;
use carbon::text_map::{Plain, TextMap};
use carbon::tree::Tree;
use carbon::variant::{AttributeValue, Properties, Variant};
use carbon::Ref;

fn properties(entries: Vec<(&str, Variant)>) -> Properties {
    let mut properties = TextMap::new();
    for (name, value) in entries {
        properties.insert(name.to_owned(), value);
    }
    properties
}

fn text(value: &str) -> Variant {
    Variant::String(value.to_owned())
}

fn node(id: Ref, class: &str, name: &str) -> Snapshot {
    Snapshot::new().with_id(id).with_class(class).with_name(name)
}

fn addition(id: Ref, parent: Ref, class: &str, name: &str, properties: Properties) -> AddedSnapshot {
    AddedSnapshot {
        id,
        parent,
        name: name.to_owned(),
        raw_name: None,
        class: class.to_owned(),
        properties,
        children: Vec::new(),
    }
}

fn class(superclass: Option<&str>, service: bool, names: &[&str], defaults: Vec<(&str, Variant)>) -> ClassInfo {
    let mut known = TextMap::new();
    for name in names {
        known.insert(name.to_string(), PropertyInfo { restricted: false, serializes: true, reference: false });
    }
    ClassInfo { superclass: superclass.map(str::to_owned), service, properties: known, defaults: properties(defaults) }
}

/// Reflection of a few classes, whose attributes are empty by default.
fn reflection() -> Reflection {
    let mut classes = TextMap::new();
    classes.insert(
        "Instance".to_owned(),
        class(
            None,
            false,
            &["Archivable", "Attributes", "Value"],
            vec![("Archivable", Variant::boolean(true)), ("Attributes", Variant::Attributes(TextMap::new()))],
        ),
    );
    for name in ["Folder", "ModuleScript", "Part", "AnimationConstraint"] {
        classes.insert(name.to_owned(), class(Some("Instance"), false, &[], vec![]));
    }
    classes.insert("ReplicatedStorage".to_owned(), class(Some("Instance"), true, &[], vec![]));
    Reflection { classes }
}

fn ids(list: &[Ref]) -> HashSet<u128> {
    list.iter().copied().collect()
}

fn starter() -> Snapshot {
    node(100, "DataModel", "DataModel").with_children(vec![
        node(101, "Workspace", "Workspace"),
        node(102, "ReplicatedStorage", "ReplicatedStorage"),
        node(103, "ServerScriptService", "ServerScriptService"),
    ])
}

#[test]
fn projected_realization_generation_ignores_nonauthored_sibling_order() {
    let first = starter();
    let mut reordered = starter();
    reordered.children.reverse();
    let baseline = projected_realization_generation(&first, &Vec::new());
    assert_eq!(baseline, projected_realization_generation(&reordered, &Vec::new()));

    let mut renamed = first;
    renamed.children[0].name.push_str("Changed");
    assert_ne!(
        baseline,
        projected_realization_generation(&renamed, &Vec::new()),
        "authored hierarchy changes must alter project realization generation"
    );
}

#[test]
fn managed_build_identity_exclusions_cover_studio_rehydrated_instances() {
    let [root, workspace, edit_camera, edit_camera_humanoid, edit_camera_status, edit_camera_status_child] =
        [1, 2, 3, 4, 5, 6];
    let [character, humanoid, status, accessory, handle, accessory_weld, head, head_weld] =
        [7, 8, 9, 10, 11, 12, 13, 14];
    let [safe_part, safe_weld, configure, configure_child, filtered_selection, mapped, mapped_child] =
        [15, 16, 17, 18, 19, 20, 21];
    let plain = |id: Ref, class: &str| Snapshot::new().with_id(id).with_class(class);
    let snapshot = plain(root, "DataModel").with_children(vec![
        plain(workspace, "Workspace")
            .with_properties(properties(vec![("CurrentCamera", Variant::Ref(edit_camera))]))
            .with_children(vec![
                plain(edit_camera, "Camera").with_children(vec![plain(edit_camera_humanoid, "Humanoid")
                    .with_children(vec![plain(edit_camera_status, "Status")
                        .with_children(vec![plain(edit_camera_status_child, "Folder")])])]),
                plain(character, "Model").with_children(vec![
                    plain(humanoid, "Humanoid").with_children(vec![plain(status, "Status")]),
                    plain(accessory, "Accessory").with_children(vec![node(handle, "Part", "Handle")
                        .with_children(vec![node(accessory_weld, "Weld", "AccessoryWeld")])]),
                    node(head, "Part", "Head").with_children(vec![node(head_weld, "Weld", "HeadWeld")
                        .with_properties(properties(vec![("Part1", Variant::Ref(handle))]))]),
                ]),
                node(safe_part, "Part", "Handle").with_children(vec![node(safe_weld, "Weld", "AccessoryWeld")]),
            ]),
        plain(configure, "ConfigureServerService").with_children(vec![plain(configure_child, "Folder")]),
        node(filtered_selection, "Instance", "FilteredSelection"),
        plain(mapped, "Folder").with_children(vec![plain(mapped_child, "ModuleScript")]),
    ]);

    let exclusions = managed_build_identity_exclusions(&snapshot, &ids(&[mapped, mapped_child]));
    assert_eq!(
        exclusions,
        ids(&[
            edit_camera,
            edit_camera_humanoid,
            edit_camera_status,
            edit_camera_status_child,
            status,
            accessory_weld,
            head_weld,
            configure,
            configure_child,
            filtered_selection,
            mapped,
            mapped_child,
        ])
    );
    assert!(!exclusions.contains(&safe_weld));
    let rebindings = managed_build_identity_rebindings(&snapshot, &ids(&[mapped, mapped_child]));
    assert_eq!(
        rebindings
            .iter()
            .map(|rebinding| (rebinding.source_id, rebinding.kind, rebinding.related_source_id))
            .collect::<Vec<(Ref, ManagedIdentityRebindingKind, Option<Ref>)>>(),
        vec![
            (status, ManagedIdentityRebindingKind::HumanoidStatus, None),
            (accessory_weld, ManagedIdentityRebindingKind::AccessoryWeld, None),
            (head_weld, ManagedIdentityRebindingKind::HeadWeld, Some(handle)),
            (configure, ManagedIdentityRebindingKind::ConfigureServerService, None),
            (configure_child, ManagedIdentityRebindingKind::Descendant, None),
            (filtered_selection, ManagedIdentityRebindingKind::FilteredSelection, None),
        ]
    );
    assert!(rebindings.iter().all(|rebinding| ![
        edit_camera,
        edit_camera_humanoid,
        edit_camera_status,
        edit_camera_status_child,
        mapped,
        mapped_child,
    ]
    .contains(&rebinding.source_id)));
    assert_eq!(ManagedIdentityRebindingKind::HeadWeld.wire_name(), "headWeld");
}

#[test]
fn new_capture_service_identity_is_stable_and_ambiguity_blocks() {
    let root_id = stable_ref("capture-service-test-root");
    let mut canonical = node(root_id, "DataModel", "Game");
    let class = "NonReplicatedCSGDictionaryService";
    let name = "NonReplicatedCSGDictionaryService";

    let first = capture_service_anchor(&canonical, class, name).unwrap();
    assert_eq!(first, capture_service_anchor(&canonical, class, name).unwrap());
    assert_ne!(first, root_id);

    canonical.children.push(node(first, class, name));
    assert_eq!(capture_service_anchor(&canonical, class, name).unwrap(), first);

    canonical.children.push(node(stable_ref("capture-service-duplicate"), class, name));
    let error = capture_service_anchor(&canonical, class, name).unwrap_err();
    assert!(error.message().contains("has no unique canonical anchor"));
}

#[test]
fn snapshot_diff_is_sparse_and_ignores_explicit_reflection_defaults() {
    let id = 7;
    let old = node(id, "Folder", "Folder").with_properties(properties(vec![("Archivable", Variant::boolean(true))]));
    let new = node(id, "Folder", "Folder").with_properties(properties(vec![
        ("Archivable", Variant::boolean(false)),
        ("Attributes", Variant::Attributes(TextMap::new())),
    ]));

    let changes = diff_snapshots(&reflection(), &SameFrames::none(), &old, &new);
    assert_eq!(changes.updates.len(), 1);
    let update = &changes.updates[0];
    let expected = properties(vec![("Archivable", Variant::boolean(false))]);
    assert!(update.properties.as_ref().unwrap().same(&expected));
    assert!(update.removed_properties.is_empty());
}

#[test]
fn projected_realization_ignores_engine_owned_state_removed_from_mapped_scripts() {
    let id = 7;
    let old = node(id, "ModuleScript", "Script").with_properties(properties(vec![
        ("Capabilities", text("engine")),
        ("LinkedSource", text("asset")),
        ("Sandboxed", Variant::boolean(true)),
        ("SourceAssetId", Variant::plain("Int64", 42_i64.to_le_bytes().to_vec())),
    ]));
    let new = node(id, "ModuleScript", "Script");
    let mut changes = diff_snapshots(&reflection(), &SameFrames::none(), &old, &new);

    assert_eq!(changes.updates.len(), 1);
    assert!(!projected_realization_changes_pending(&changes, &ids(&[id])));
    assert!(projected_realization_changes_pending(&changes, &HashSet::new()));

    changes.updates[0].removed_properties.push("Archivable".to_owned());
    assert!(projected_realization_changes_pending(&changes, &ids(&[id])));
}

#[test]
fn snapshot_diff_treats_utf8_attribute_wire_bytes_as_the_same_string() {
    let snapshot = |value: AttributeValue| {
        let mut attributes = TextMap::new();
        attributes.insert("Label".to_owned(), value);
        node(7, "Folder", "Folder").with_properties(properties(vec![("Attributes", Variant::Attributes(attributes))]))
    };
    let binary = snapshot(AttributeValue::BinaryString(b"value".to_vec()));
    let text = snapshot(AttributeValue::String("value".to_owned()));

    assert!(diff_snapshots(&reflection(), &SameFrames::none(), &binary, &text).is_empty());
}

fn cframe(rows: [[f32; 3]; 3]) -> Variant {
    let mut bytes = Vec::new();
    for number in [-5.638731e-7_f32, -1.1857359e-5, 7.4354045e-7] {
        bytes.extend(number.to_le_bytes());
    }
    for number in rows.iter().flatten() {
        bytes.extend(number.to_le_bytes());
    }
    Variant::plain("CFrame", bytes)
}

#[test]
fn snapshot_diff_ignores_studio_cframe_rotation_rounding() {
    let id = 7;
    let snapshot = |value: Variant| {
        node(id, "AnimationConstraint", "RightWrist").with_properties(properties(vec![("Transform", value)]))
    };
    let original = || {
        cframe([
            [0.86990005, -0.19090259, 0.45478573],
            [0.26061186, 0.96073776, -0.09520735],
            [-0.4187545, 0.20134343, 0.88549733],
        ])
    };
    let first_studio_roundtrip = || {
        cframe([
            [0.86990005, -0.1909026, 0.4547858],
            [0.2606119, 0.9607377, -0.095207356],
            [-0.41875455, 0.20134348, 0.8854973],
        ])
    };
    let second_studio_roundtrip = || {
        cframe([
            [0.86990005, -0.19090259, 0.45478582],
            [0.2606119, 0.96073776, -0.095207356],
            [-0.41875458, 0.20134348, 0.8854973],
        ])
    };
    let mut names = TextMap::new();
    names.insert("Transform".to_owned(), true);
    let rounded = SameFrames { properties: HashMap::from([(id, names)]) };

    assert!(diff_snapshots(&reflection(), &rounded, &snapshot(original()), &snapshot(first_studio_roundtrip()))
        .is_empty());
    assert!(diff_snapshots(
        &reflection(),
        &rounded,
        &snapshot(first_studio_roundtrip()),
        &snapshot(second_studio_roundtrip())
    )
    .is_empty());

    let authored_rotation = cframe([[1.0, 0.0, 0.0], [0.0, 1.0, 0.0], [0.0, 0.0, 1.0]]);
    let authored =
        diff_snapshots(&reflection(), &SameFrames::none(), &snapshot(original()), &snapshot(authored_rotation));
    assert_eq!(authored.updates.len(), 1);
}

#[test]
fn a_place_does_not_differ_from_itself() {
    let place = || {
        starter().with_properties(properties(vec![
            ("Archivable", Variant::boolean(false)),
            ("Source", Variant::BinaryString(b"return 1".to_vec())),
        ]))
    };
    assert!(diff_snapshots(&reflection(), &SameFrames::none(), &place(), &place()).is_empty());
}

#[test]
fn differences_name_the_topmost_changes() {
    let before = node(1, "DataModel", "Game").with_children(vec![
        node(2, "Folder", "Gone").with_children(vec![node(3, "Folder", "Below")]),
        node(4, "Folder", "Kept"),
    ]);
    let after = node(1, "DataModel", "Game").with_children(vec![node(4, "Part", "Renamed").with_children(vec![
        node(5, "Folder", "New").with_children(vec![node(6, "Folder", "Below")]),
    ])]);
    let changes = diff_snapshots(&reflection(), &SameFrames::none(), &before, &after);
    assert_eq!(changes.removals, vec![2]);
    assert_eq!(changes.additions.len(), 1);
    assert_eq!((changes.additions[0].id, changes.additions[0].parent), (5, 4));
    assert_eq!(changes.updates.len(), 1);
    assert_eq!(changes.updates[0].name, Some("Renamed".to_owned()));
    assert_eq!(changes.updates[0].class, Some("Part".to_owned()));
    assert_eq!(changes.updates[0].parent, None);
}

#[test]
fn source_replacement_retires_removed_studio_identities() {
    let previous_mapping = 5;
    let removed_studio_identity = 6;
    let retired = retired_source_refs(&ids(&[previous_mapping]), &HashSet::new(), &vec![removed_studio_identity]);
    assert!(retired.contains(&previous_mapping));
    assert!(retired.contains(&removed_studio_identity));
}

/// The changes that turn what an attempt left back into what is canonical.
fn corrective_changes(canonical: &Snapshot, attempted: Changes) -> Changes {
    let mut observed = Tree::new(canonical.clone()).unwrap();
    let mut unknown_updates = Vec::new();
    for addition in attempted.additions {
        let parent = addition.parent;
        observed.insert_instance_recursive(addition.into_snapshot(), parent).unwrap();
    }
    for update in attempted.updates {
        if observed.contains(update.id) {
            observed.apply_update(update).unwrap();
        } else {
            unknown_updates.push(update.id);
        }
    }
    for removal in attempted.removals {
        observed.remove_instance(removal);
    }
    let observed = observed.into_snapshot();
    let mut correction = diff_snapshots(&reflection(), &SameFrames::none(), &observed, canonical);
    correction.removals.extend(unknown_updates);
    correction.removals.sort_by_key(|id| ref_text(*id));
    correction.removals.dedup();
    correction
}

#[test]
fn rejected_studio_changes_produce_canonical_corrections() {
    let mapped = 51;
    let script = 52;
    let canonical = node(50, "DataModel", "").with_children(vec![node(mapped, "Folder", "Mapped").with_children(
        vec![node(script, "ModuleScript", "Entry").with_properties(properties(vec![("Source", text("return true"))]))],
    )]);
    let mut attempted = Changes::new();
    let mut update = UpdatedSnapshot::new(script);
    update.properties = Some(properties(vec![("Source", text("return false"))]));
    attempted.updates.push(update);
    let correction = corrective_changes(&canonical, attempted);
    assert_eq!(correction.updates.len(), 1);
    assert!(correction.updates[0].properties.as_ref().unwrap().get("Source").unwrap().same(&text("return true")));

    let forbidden = 53;
    let mut attempted = Changes::new();
    attempted.additions.push(addition(forbidden, mapped, "Part", "Forbidden", TextMap::new()));
    let correction = corrective_changes(&canonical, attempted);
    assert_eq!(correction.removals, vec![forbidden]);
}

#[test]
fn combined_forbidden_structural_changes_produce_one_canonical_correction() {
    let [root, mapped, example, studio_owned, barrier_part, manifest_script] = [61, 62, 63, 64, 65, 66];
    let canonical = node(root, "DataModel", "").with_children(vec![
        node(mapped, "Folder", "Shared").with_children(vec![node(example, "ModuleScript", "Example")]),
        node(studio_owned, "Folder", "StudioOwned"),
    ]);
    let mut attempted = Changes::new();
    attempted.additions.push(addition(barrier_part, mapped, "Part", "BarrierPart", TextMap::new()));
    attempted.additions.push(addition(manifest_script, studio_owned, "ModuleScript", "ManifestScript", TextMap::new()));
    let mut moved = UpdatedSnapshot::new(example);
    moved.parent = Some(studio_owned);
    attempted.updates.push(moved);

    let correction = corrective_changes(&canonical, attempted);
    assert_eq!(correction.removals.len(), 2);
    assert!(correction.removals.contains(&barrier_part));
    assert!(correction.removals.contains(&manifest_script));
    let restored = correction.updates.iter().find(|update| update.id == example).unwrap();
    assert_eq!(restored.parent, Some(mapped));
}

#[test]
fn studio_commit_refresh_preserves_the_unapplied_filesystem_baseline() {
    let place = |mapped: Variant, studio: Variant| {
        node(70, "DataModel", "").with_children(vec![
            node(71, "Folder", "Mapped").with_properties(properties(vec![("Value", mapped)])),
            node(72, "Folder", "Studio").with_properties(properties(vec![("Value", studio)])),
        ])
    };
    let previous = place(text("filesystem-baseline"), text("studio-before"));
    let committed = place(Variant::BinaryString(b"transport-form".to_vec()), text("studio-after"));
    let merged = canonical_after_studio_commit(&previous, &committed, &ids(&[71])).unwrap();
    assert!(merged.children[0].properties.get("Value").unwrap().same(&text("filesystem-baseline")));
    assert!(merged.children[1].properties.get("Value").unwrap().same(&text("studio-after")));
    let lost = node(70, "DataModel", "");
    assert!(canonical_after_studio_commit(&lost, &committed, &ids(&[71])).is_err());
}

#[test]
fn capture_preflight_allows_all_manifest_references_to_mapped_targets_but_rejects_reverse_refs() {
    let [root, replicated_storage, mapped, mapped_target, studio_owned] = [81, 82, 83, 84, 85];
    let canonical = node(root, "DataModel", "DataModel").with_children(vec![node(
        replicated_storage,
        "ReplicatedStorage",
        "ReplicatedStorage",
    )
    .with_children(vec![
        node(mapped, "Folder", "Shared").with_children(vec![node(mapped_target, "ModuleScript", "Example")]),
        node(studio_owned, "Folder", "StudioOwned"),
    ])]);
    let mapped_refs = ids(&[mapped, mapped_target]);

    for (property, value) in
        [("Value", Variant::Ref(mapped_target)), ("FallbackImageContent", Variant::Object(mapped_target))]
    {
        let mut changes = Changes::new();
        changes.additions.push(addition(
            86,
            studio_owned,
            "ObjectValue",
            "CrossDomain",
            properties(vec![(property, value)]),
        ));
        validate_capture_cross_domain_references(&canonical, &changes, &mapped_refs).unwrap();
    }

    let mut changes = Changes::new();
    let mut mapped_update = UpdatedSnapshot::new(mapped_target);
    mapped_update.properties = Some(properties(vec![("Value", Variant::Ref(studio_owned))]));
    changes.updates.push(mapped_update);
    let error = validate_capture_cross_domain_references(&canonical, &changes, &mapped_refs).unwrap_err().message();
    assert!(error.contains("game.ReplicatedStorage.Shared.Example.Value"));
    assert!(error.contains("game.ReplicatedStorage.StudioOwned"));
}

#[test]
fn capture_identity_reconciliation_preserves_unambiguous_rename_and_reparent() {
    let [root_id, prior_id, target_parent, transient] = [91, 92, 93, 94];
    let canonical = node(root_id, "DataModel", "DataModel").with_children(vec![
        node(prior_id, "Folder", "Before").with_properties(properties(vec![("Archivable", Variant::boolean(true))])),
        node(target_parent, "Workspace", "Workspace"),
    ]);
    let mut changes = Changes::new();
    changes.removals.push(prior_id);
    changes.additions.push(addition(
        transient,
        target_parent,
        "Folder",
        "After",
        properties(vec![("Archivable", Variant::boolean(false))]),
    ));

    reconcile_capture_identities(&canonical, &mut changes).unwrap();
    assert_eq!(changes.additions[0].id, prior_id);
    assert_eq!(changes.additions[0].parent, target_parent);
}

#[test]
fn capture_identity_reconciliation_rejects_ambiguous_prior_objects() {
    let [root, first, second] = [101, 102, 103];
    let canonical = node(root, "DataModel", "DataModel")
        .with_children(vec![node(first, "Folder", "One"), node(second, "Folder", "Two")]);
    let mut changes = Changes::new();
    changes.removals.extend([first, second]);
    changes.additions.push(addition(104, root, "Folder", "Renamed", TextMap::new()));

    let error = reconcile_capture_identities(&canonical, &mut changes).unwrap_err().message();
    assert!(error.contains("identity-ambiguity blocker"));
}

#[test]
fn capture_identity_reconciliation_indexes_thousands_of_unique_roots() {
    let root_id = 1;
    let mut prior = Vec::new();
    let mut changes = Changes::new();
    let mut expected = Vec::new();
    for index in 0..5_000_u128 {
        let prior_id = 1_000_000 + index;
        expected.push(prior_id);
        let marker = || properties(vec![("Marker", text(&index.to_string()))]);
        prior.push(node(prior_id, "Folder", &format!("Before{index}")).with_properties(marker()));
        changes.removals.push(prior_id);
        changes.additions.push(addition(
            2_000_000 + index,
            root_id,
            "Folder",
            &format!("After{index}"),
            marker(),
        ));
    }
    let canonical = node(root_id, "DataModel", "DataModel").with_children(prior);

    reconcile_capture_identities(&canonical, &mut changes).unwrap();

    assert_eq!(changes.additions.iter().map(|addition| addition.id).collect::<Vec<Ref>>(), expected);
}

#[test]
fn capture_identity_reconciliation_assigns_a_structured_identity_to_a_genuinely_new_instance() {
    let root_id = 1;
    let incoming = 2;
    let canonical = node(root_id, "DataModel", "DataModel");
    let mut changes = Changes::new();
    changes.additions.push(addition(incoming, root_id, "Folder", "New", TextMap::new()));

    reconcile_capture_identities(&canonical, &mut changes).unwrap();
    let bytes = changes.additions[0].id.to_be_bytes();
    assert_ne!(changes.additions[0].id, incoming);
    assert_ne!(&bytes[..PREFIX_BYTES], &[0; PREFIX_BYTES]);
    assert_eq!(&bytes[PREFIX_BYTES..], &[0, 0]);
}

#[test]
fn numbers_are_compared_as_numbers() {
    let same = |left: Variant, right: Variant| {
        property_values_semantically_equal(
            &reflection(),
            &SameFrames::none(),
            1,
            "Part",
            "Value",
            Some(&left),
            Some(&right),
        )
    };
    let number = |value: f32| Variant::float32(value.to_bits());
    assert!(same(number(0.0), number(-0.0)));
    assert!(same(number(1.5), number(1.5)));
    assert!(!same(number(1.5), number(-1.5)));
    assert!(same(number(f32::INFINITY), number(f32::INFINITY)));
    assert!(!same(number(f32::NAN), number(f32::NAN)));
    let wide = |value: f64| Variant::plain("Float64", value.to_le_bytes().to_vec());
    assert!(same(wide(0.0), wide(-0.0)));
    assert!(same(wide(f64::MAX), wide(f64::MAX)));
    assert!(!same(wide(f64::NAN), wide(f64::NAN)));
    let vector = |parts: [f32; 3]| {
        Variant::plain("Vector3", parts.iter().flat_map(|part| part.to_le_bytes()).collect::<Vec<u8>>())
    };
    assert!(same(vector([1.0, -0.0, 3.0]), vector([1.0, 0.0, 3.0])));
    assert!(!same(vector([1.0, 2.0, 3.0]), vector([1.0, 2.0, 4.0])));
    assert!(!same(number(0.0), Variant::plain("Vector2", vec![0; 4])));
    assert!(!same(Variant::plain("Int32", vec![0; 4]), Variant::plain("Int32", vec![0, 0, 0, 128])));
}

#[test]
fn of_nodes_with_one_identity_the_last_counts() {
    let old = node(1, "DataModel", "Game").with_children(vec![
        node(2, "Folder", "Kept"),
        node(3, "Folder", "Gone"),
        node(3, "Folder", "GoneToo"),
    ]);
    let new = node(1, "DataModel", "Game").with_children(vec![
        node(2, "Folder", "First"),
        node(4, "Folder", "New"),
        node(4, "Folder", "Newer"),
        node(2, "Folder", "Last"),
    ]);
    let changes = diff_snapshots(&reflection(), &SameFrames::none(), &old, &new);
    assert_eq!(changes.additions.len(), 1);
    assert_eq!(changes.additions[0].name, "Newer");
    assert_eq!(changes.updates.len(), 1);
    assert_eq!(changes.updates[0].name.as_deref(), Some("Last"));
    assert_eq!(changes.removals, vec![3]);
}

#[test]
fn new_instances_get_the_first_identities_that_are_not_in_use() {
    let first = u128::from(0x0200_u16) << 16;
    let listed = || {
        let mut prefix = [0; PREFIX_BYTES];
        prefix[PREFIX_BYTES - 2] = 2;
        ManifestIdentityAllocator::from_prefixes(vec![[0; PREFIX_BYTES], prefix])
    };
    let canonical = node(1, "DataModel", "DataModel").with_children(vec![
        node(first, "Folder", "There"),
        node(first + 2, "Folder", "Gone"),
    ]);
    let mut changes = Changes::new();
    changes.removals.push(first + 2);
    changes.additions.push(addition(11, 1, "Part", "New", TextMap::new()));
    changes.additions.push(addition(12, 1, "Folder", "Renamed", TextMap::new()));
    changes.additions.push(addition(13, 11, "Model", "Newer", TextMap::new()));

    let map = reconcile_with(&canonical, &mut changes, &mut listed()).unwrap();
    let given = changes.additions.iter().map(|addition| addition.id).collect::<Vec<Ref>>();
    assert_eq!(given, vec![first + 1, first + 2, first + 3]);
    assert_eq!(changes.additions[2].parent, first + 1);
    assert_eq!(map.len(), 3);
    assert_eq!(map[&12], first + 2);

    let mut none = ManifestIdentityAllocator::from_prefixes(vec![[0; PREFIX_BYTES]]);
    let mut matched = Changes::new();
    matched.removals.push(first + 2);
    matched.additions.push(addition(21, 1, "Folder", "Renamed", TextMap::new()));
    assert_eq!(reconcile_with(&canonical, &mut matched, &mut none).unwrap()[&21], first + 2);
    let mut unmatched = Changes::new();
    unmatched.additions.push(addition(22, 1, "Part", "New", TextMap::new()));
    let error = reconcile_with(&canonical, &mut unmatched, &mut none).unwrap_err().message();
    assert_eq!(error, "identity prefixes are exhausted");
    assert_eq!(unmatched.additions[0].id, 22);
}

#[test]
fn imported_places_get_the_next_identities_in_order() {
    let place = node(1, "DataModel", "Game")
        .with_children(vec![node(2, "Folder", "A").with_children(vec![node(3, "Folder", "B")]), node(4, "Folder", "C")]);
    let first = u128::from_be_bytes([0x11; 16]) >> 16 << 16;
    let mut allocator = ManifestIdentityAllocator::from_prefixes(vec![[0x11; PREFIX_BYTES]]);
    let renamed = stabilize_snapshot_ids(&place, &mut allocator).unwrap();
    assert_eq!(renamed.id, first);
    assert_eq!(renamed.children[0].id, first + 1);
    assert_eq!(renamed.children[0].children[0].id, first + 2);
    assert_eq!(renamed.children[1].id, first + 3);
    assert!(stabilize_snapshot_ids(&place, &mut ManifestIdentityAllocator::from_prefixes(vec![])).is_err());
}

fn holder(target: Ref) -> Properties {
    properties(vec![("Ref", Variant::Ref(target)), ("Content", Variant::Object(target))])
}

#[test]
fn imported_snapshot_remaps_ref_and_object_content_to_structured_identities() {
    let [source_root, source_target, source_holder] = [111, 112, 113];
    let snapshot = node(source_root, "DataModel", "Game").with_children(vec![
        node(source_target, "Folder", "Target"),
        node(source_holder, "AdGui", "Holder").with_properties(holder(source_target)),
    ]);

    let snapshot = stabilize_snapshot_ids(&snapshot, &mut ManifestIdentityAllocator::new()).unwrap();

    let target = snapshot.children[0].id;
    let moved = &snapshot.children[1];
    assert_ne!(snapshot.id, source_root);
    assert_ne!(target, source_target);
    assert_ne!(moved.id, source_holder);
    assert!(moved.properties.same(&holder(target)));
    let prefixes = [snapshot.id, target, moved.id]
        .into_iter()
        .map(|id| ref_text(id)[..PREFIX_BYTES * 2].to_owned())
        .collect::<HashSet<String>>();
    assert_eq!(prefixes.len(), 1);
}

#[test]
fn imported_places_refuse_references_that_leave_them() {
    let place = |properties: Properties| node(1, "DataModel", "Game").with_properties(properties);
    let reference = stabilize_with(&place(properties(vec![("Value", Variant::Ref(9))])), &vec![5]).unwrap_err();
    assert_eq!(reference.message, format!("reference target {:032x} is outside place", 9));
    let content = stabilize_with(&place(properties(vec![("Image", Variant::Object(9))])), &vec![5]).unwrap_err();
    assert_eq!(content.message, format!("content target {:032x} is outside place", 9));
    let itself = stabilize_with(&place(properties(vec![("Value", Variant::Ref(1))])), &vec![5]).unwrap();
    assert!(itself.properties.get("Value").unwrap().same(&Variant::Ref(5)));
}

#[test]
fn capture_reconciliation_remaps_ref_and_object_content_to_new_identities() {
    let [root, source_target, source_holder] = [121, 122, 123];
    let canonical = node(root, "DataModel", "Game");
    let mut changes = Changes::new();
    changes.additions.push(addition(source_target, root, "Folder", "Target", TextMap::new()));
    changes.additions.push(addition(source_holder, root, "AdGui", "Holder", holder(source_target)));

    reconcile_capture_identities(&canonical, &mut changes).unwrap();

    let target = changes.additions.iter().find(|addition| addition.name == "Target").unwrap().id;
    let moved = changes.additions.iter().find(|addition| addition.name == "Holder").unwrap();
    assert_ne!(target, source_target);
    assert_ne!(moved.id, source_holder);
    assert!(moved.properties.same(&holder(target)));
}

#[test]
fn hydrated_service_defaults_require_exact_class_property_and_value() {
    let hydrated = is_default_hydrated_service_property;
    assert!(hydrated("Players", "UseStrafingAnimations", &Variant::boolean(false)));
    assert!(!hydrated("Players", "UseStrafingAnimations", &Variant::boolean(true)));
    assert!(hydrated("Players", "PreferredPlayers", &Variant::int32(0)));
    assert!(!hydrated("Players", "PreferredPlayers", &Variant::int32(1)));
    assert!(hydrated("StarterGui", "ShowDevelopmentGui", &Variant::boolean(true)));
    assert!(!hydrated("StarterGui", "ShowDevelopmentGui", &Variant::boolean(false)));
    assert!(hydrated("StarterGui", "ClipsDescendantsSupportsRotation", &Variant::enumeration(0)));
    assert!(!hydrated("StarterGui", "ClipsDescendantsSupportsRotation", &Variant::enumeration(1)));
    assert!(!hydrated("Folder", "ShowDevelopmentGui", &Variant::boolean(true)));
}

fn policy(mapped: &[Ref], roots: &[Ref]) -> LivePolicy {
    LivePolicy {
        project_path: "/game/game.carbon.json".to_owned(),
        project_document: b"{}".to_vec(),
        composite_manifest: "/game/state.carbon".to_owned(),
        mapped_refs: ids(mapped),
        retired_mapped_refs: HashSet::new(),
        mapped_roots: roots.to_vec(),
        mapped_watch_roots: Vec::new(),
        routing_refs: HashSet::new(),
    }
}

#[test]
fn studio_may_change_what_it_owns_and_nothing_that_is_mapped() {
    let canonical = node(1, "DataModel", "Game").with_children(vec![node(2, "ReplicatedStorage", "ReplicatedStorage")
        .with_children(vec![node(3, "Folder", "Mapped"), node(4, "Folder", "Owned")])]);
    let policy = policy(&[3], &[3]);
    let mut owned = Changes::new();
    owned.additions.push(addition(5, 4, "Part", "New", TextMap::new()));
    assert!(policy.reject_studio_changes(&reflection(), &canonical, &mut owned).is_ok());
    assert_eq!(owned.additions.len(), 1);

    let mut mapped = Changes::new();
    mapped.additions.push(addition(5, 3, "Part", "New", TextMap::new()));
    assert!(policy.reject_studio_changes(&reflection(), &canonical, &mut mapped).is_err());
    let mut removed = Changes::new();
    removed.removals.push(3);
    assert!(policy.reject_studio_changes(&reflection(), &canonical, &mut removed).is_err());
}

#[test]
fn routes_lead_to_mapped_subtrees_and_are_pruned() {
    let place = || {
        node(1, "DataModel", "Game").with_children(vec![node(2, "ReplicatedStorage", "ReplicatedStorage")
            .with_children(vec![node(3, "Folder", "Shared").with_children(vec![node(4, "ModuleScript", "Main")])])])
    };
    let route = vec!["ReplicatedStorage".to_owned(), "Shared".to_owned()];
    let (refs, roots, routing) = snapshot_refs_for_routes(&place(), &vec![route.clone()]).unwrap();
    assert_eq!(refs, ids(&[3, 4]));
    assert_eq!(roots, vec![3]);
    assert_eq!(routing, ids(&[2]));
    let pruned = prune_routes(place(), &vec![route]).unwrap();
    assert!(pruned.children[0].children.is_empty());
    let lost = vec!["Nowhere".to_owned(), "Shared".to_owned()];
    assert_eq!(
        snapshot_refs_for_routes(&place(), &vec![lost.clone()]).unwrap_err().message(),
        "composed mapping route Nowhere.Shared is missing"
    );
    assert_eq!(
        prune_routes(place(), &vec![lost]).unwrap_err().message(),
        "mapping route anchor Nowhere is absent"
    );
    assert!(prune_routes(place(), &vec![Vec::new()]).is_err());
}

#[test]
fn composed_places_have_one_of_each_identity_and_no_dangling_references() {
    let twice = node(1, "DataModel", "Game").with_children(vec![node(2, "Folder", "A"), node(2, "Part", "B")]);
    assert_eq!(
        validate_unique_snapshot_ids(&twice).unwrap_err().message(),
        format!("duplicate composed identity {:032x} at Folder 'A' and Part 'B'", 2)
    );
    let dangling = node(1, "DataModel", "Game").with_properties(properties(vec![("Value", Variant::Ref(9))]));
    assert!(validate_snapshot_references(&dangling)
        .unwrap_err()
        .message()
        .starts_with(&format!("dangling composed reference Game.Value -> {:032x}", 9)));
    let crossing = node(1, "DataModel", "Game").with_children(vec![
        node(2, "Folder", "Mapped").with_properties(properties(vec![("Value", Variant::Ref(3))])),
        node(3, "Folder", "Owned"),
    ]);
    assert!(validate_no_cross_domain_references(&crossing, &ids(&[2])).is_err());
    assert!(validate_no_cross_domain_references(&crossing, &ids(&[2, 3])).is_ok());
}
