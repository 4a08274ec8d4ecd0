use std::collections::HashSet;

use carbon::attributes::{mapped_attributes_equal, strip_matching_mcp_place_id, strip_studio_route_properties};
use carbon::managed_hierarchy::{
    encode_managed_hierarchy, encode_project_managed_hierarchy, install_managed_hierarchy_contract, ManagedError,
    ManagedHierarchyState,
};
use carbon::reflection::{ClassInfo, Reflection};
use carbon::snapshot::{Snapshot, UpdatedSnapshot};
use carbon::text_map::{Plain, TextMap};
use carbon::tree::{Tree, TreeError};
use carbon::variant::{AttributeValue, Properties, Variant};
use carbon::{Ref, NO_REF};

fn properties(entries: Vec<(&str, Variant)>) -> Properties {
    let mut properties = TextMap::new();
    for (name, value) in entries {
        properties.insert(name.to_owned(), value);
    }
    properties
}

fn attributes(entries: Vec<(&str, AttributeValue)>) -> TextMap<AttributeValue> {
    let mut attributes = TextMap::new();
    for (name, value) in entries {
        attributes.insert(name.to_owned(), value);
    }
    attributes
}

fn node(id: Ref, class: &str, name: &str) -> Snapshot {
    Snapshot::new().with_id(id).with_class(class).with_name(name)
}

fn services(names: &[&str]) -> Reflection {
    let mut classes = TextMap::new();
    for name in names {
        classes.insert(
            name.to_string(),
            ClassInfo { superclass: None, service: true, properties: TextMap::new(), defaults: TextMap::new() },
        );
    }
    Reflection { classes }
}

fn ids(list: &[Ref]) -> HashSet<u128> {
    list.iter().copied().collect()
}

#[test]
fn tree_construction_moves_property_storage_into_arena() {
    let payload = String::from("property storage must not be cloned");
    let payload_ptr = payload.as_ptr();
    let tree = Tree::new(
        Snapshot::new()
            .with_class("ModuleScript")
            .with_properties(properties(vec![("Source", Variant::String(payload))])),
    )
    .unwrap();
    let Some(Variant::String(actual)) = tree.root().properties.get("Source") else {
        panic!("Source property was not preserved");
    };
    assert_eq!(actual.as_ptr(), payload_ptr);
}

#[test]
fn snapshot_conversion_moves_property_storage_out_of_arena() {
    let payload = String::from("property storage must still not be cloned");
    let payload_ptr = payload.as_ptr();
    let snapshot = Tree::new(
        Snapshot::new()
            .with_class("ModuleScript")
            .with_properties(properties(vec![("Source", Variant::String(payload))])),
    )
    .unwrap()
    .into_snapshot();
    let Some(Variant::String(actual)) = snapshot.properties.get("Source") else {
        panic!("Source property was not preserved");
    };
    assert_eq!(actual.as_ptr(), payload_ptr);
}

#[test]
fn siblings_are_canonicalized_by_stable_referent() {
    let root = 0x10;
    let low = 0x1;
    let high = 0x2;
    let mut tree = Tree::new_detached(Snapshot::new().with_id(root), 3).unwrap();
    tree.insert_detached(Snapshot::new().with_id(high), root).unwrap();
    tree.insert_detached(Snapshot::new().with_id(low), root).unwrap();
    tree.finish_detached().unwrap();
    assert_eq!(tree.root().children(), &vec![low, high]);
}

#[test]
fn arena_removal_repairs_dense_indexes() {
    let removed_id = 11;
    let survivor_id = 12;
    let descendant_id = 13;
    let mut tree = Tree::new(Snapshot::new().with_class("DataModel").with_children(vec![
        Snapshot::new().with_id(removed_id).with_children(vec![Snapshot::new().with_id(descendant_id)]),
        Snapshot::new().with_id(survivor_id).with_name("Survivor"),
    ]))
    .unwrap();
    tree.remove_instance(removed_id);
    assert!(!tree.contains(removed_id));
    assert!(!tree.contains(descendant_id));
    assert_eq!(tree.root().children(), &vec![survivor_id]);
    assert_eq!(tree.get_instance(survivor_id).unwrap().name, "Survivor");
}

#[test]
fn arena_reparent_updates_both_parent_child_lists() {
    let old_parent = 21;
    let new_parent = 22;
    let child = 23;
    let mut tree = Tree::new(Snapshot::new().with_children(vec![
        Snapshot::new().with_id(old_parent).with_children(vec![Snapshot::new().with_id(child)]),
        Snapshot::new().with_id(new_parent),
    ]))
    .unwrap();
    tree.reparent_instance(child, new_parent);
    assert!(tree.get_instance(old_parent).unwrap().children().is_empty());
    assert_eq!(tree.get_instance(new_parent).unwrap().children(), &vec![child]);
    assert_eq!(tree.get_instance(child).unwrap().parent(), new_parent);
}

#[test]
fn hierarchy_pages_never_clone_properties() {
    let large = properties(vec![("Source", Variant::String("large payload".repeat(100)))]);
    let tree = Tree::new(Snapshot::new().with_name("Root").with_children(vec![
        Snapshot::new()
            .with_name("A")
            .with_properties(large)
            .with_children(vec![Snapshot::new().with_name("A1")]),
        Snapshot::new().with_name("B"),
    ]))
    .unwrap();
    let mut cursor = Vec::new();
    let mut names = Vec::new();
    loop {
        let page = tree.snapshot_page(NO_REF, cursor, 2, 1).unwrap().unwrap();
        assert_eq!(page.instances.len(), 1);
        names.push(page.instances[0].name.clone());
        if page.done {
            break;
        }
        cursor = page.cursor;
    }
    names.sort();
    assert_eq!(names, ["A", "A1", "B", "Root"]);
}

#[test]
fn pages_of_one_walk_hold_the_subtree_in_order() {
    let tree = Tree::new(node(1, "DataModel", "Root").with_children(vec![
        node(2, "Folder", "A").with_children(vec![node(3, "Folder", "A1"), node(4, "Folder", "A2")]),
        node(5, "Folder", "B").with_children(vec![node(6, "Folder", "B1")]),
    ]))
    .unwrap();
    for (id, max_instances, max_bytes) in [(1, 1, 1), (1, 2, 1000), (1, 9, 250), (2, 2, 1000), (5, 1, 0)] {
        let mut cursor = Vec::new();
        let mut found = Vec::new();
        loop {
            let page = tree.snapshot_page(id, cursor, max_instances, max_bytes).unwrap().unwrap();
            assert!(!page.instances.is_empty() && page.instances.len() <= max_instances);
            assert!(page.encoded_bytes <= max_bytes || page.instances.len() == 1);
            found.extend(page.instances.iter().map(|instance| instance.id));
            if page.done {
                break;
            }
            cursor = page.cursor;
        }
        assert_eq!(found, tree.subtree_refs(id).unwrap());
    }
}

#[test]
fn emitted_siblings_are_ordered_by_class_and_name() {
    let names = |ids: [Ref; 3]| {
        let mut tree = Tree::new(node(1, "DataModel", "Root").with_children(vec![
            node(ids[0], "Folder", "B"),
            node(ids[1], "Camera", "Z"),
            node(ids[2], "Folder", "A"),
        ]))
        .unwrap();
        tree.canonicalize_output_order();
        let children = tree.get_instance(1).unwrap().children().clone();
        children.iter().map(|id| tree.get_instance(*id).unwrap().name().to_owned()).collect::<Vec<String>>()
    };
    for ids in [[2, 3, 4], [4, 3, 2], [30, 10, 20]] {
        assert_eq!(names(ids), ["Z", "A", "B"]);
    }
}

#[test]
fn the_order_of_output_forgets_how_siblings_stood() {
    let emitted = |children: Vec<Snapshot>| {
        let mut tree = Tree::new(node(1, "DataModel", "Root").with_children(vec![
            node(2, "Folder", "Inner").with_children(children),
            node(3, "Folder", "Inner"),
        ]))
        .unwrap();
        tree.canonicalize_output_order();
        (tree.root().children().clone(), tree.get_instance(2).unwrap().children().clone())
    };
    let [a, b, c] = [(4, "Part", "X"), (5, "Folder", "Y"), (6, "Part", "X")];
    let make = |list: [(Ref, &str, &str); 3]| list.iter().map(|(id, class, name)| node(*id, class, name)).collect();
    for list in [[a, b, c], [c, b, a], [b, c, a]] {
        assert_eq!(emitted(make(list)), (vec![2, 3], vec![5, 4, 6]));
    }
}

fn wrap_target(stiffness: u32) -> Tree {
    Tree::new(Snapshot::new().with_children(vec![Snapshot::new().with_id(31).with_class("WrapTarget").with_properties(
        properties(vec![
            ("HSRAssetId", Variant::plain("Int64", 46_i64.to_le_bytes().to_vec())),
            ("Stiffness", Variant::float32(stiffness)),
        ]),
    )]))
    .unwrap()
}

#[test]
fn sparse_property_updates_preserve_unmentioned_canonical_properties() {
    let mut tree = wrap_target(0.0_f32.to_bits());
    let mut update = UpdatedSnapshot::new(31);
    update.properties = Some(properties(vec![("Stiffness", Variant::float32(0.25_f32.to_bits()))]));

    tree.apply_update(update).unwrap();

    let found = &tree.get_instance(31).unwrap().properties;
    assert!(found.get("HSRAssetId").unwrap().same(&Variant::plain("Int64", 46_i64.to_le_bytes().to_vec())));
    assert!(found.get("Stiffness").unwrap().same(&Variant::float32(0.25_f32.to_bits())));
}

#[test]
fn sparse_property_updates_remove_explicit_defaults_only() {
    let mut tree = wrap_target(0.25_f32.to_bits());
    let mut update = UpdatedSnapshot::new(31);
    update.removed_properties.push("Stiffness".to_owned());

    tree.apply_update(update).unwrap();

    let found = &tree.get_instance(31).unwrap().properties;
    assert!(found.get("HSRAssetId").unwrap().same(&Variant::plain("Int64", 46_i64.to_le_bytes().to_vec())));
    assert!(!found.contains_key("Stiffness"));
}

#[test]
fn trees_refuse_what_would_break_them() {
    let tree = || Tree::new(node(1, "DataModel", "Root").with_children(vec![node(2, "Folder", "A")])).unwrap();
    let twice = Tree::new(node(1, "DataModel", "Root").with_children(vec![node(1, "Folder", "A")]));
    assert!(matches!(twice, Err(TreeError::Duplicate(1))));

    let mut both = UpdatedSnapshot::new(2);
    both.properties = Some(properties(vec![("Value", Variant::boolean(true))]));
    both.removed_properties.push("Value".to_owned());
    assert!(matches!(tree().apply_update(both), Err(TreeError::SetAndRemoved(name)) if name == "Value"));
    assert!(matches!(tree().apply_update(UpdatedSnapshot::new(9)), Err(TreeError::UpdatedMissing)));
    let mut root = UpdatedSnapshot::new(1);
    root.parent = Some(2);
    assert!(matches!(tree().apply_update(root), Err(TreeError::RootMoved)));
    let mut lost = UpdatedSnapshot::new(2);
    lost.parent = Some(9);
    assert!(matches!(tree().apply_update(lost), Err(TreeError::DestinationMissing(9))));
    let mut knotted = UpdatedSnapshot::new(2);
    knotted.parent = Some(2);
    assert!(matches!(tree().apply_update(knotted), Err(TreeError::BeneathItself)));
    assert!(matches!(tree().subtree_refs(9), Err(TreeError::InstanceMissing(9))));
    assert!(tree().snapshot_page(NO_REF, vec![9], 2, 1).is_err());
}

#[test]
fn trees_give_back_the_hierarchy_they_were_built_from() {
    let snapshot = node(1, "DataModel", "Root").with_children(vec![
        node(3, "Folder", "B").with_children(vec![node(4, "Script", "C")]),
        node(2, "Folder", "A"),
    ]);
    let tree = Tree::new(snapshot).unwrap();
    assert_eq!(tree.subtree_refs(1).unwrap().len(), 4);
    let back = tree.into_snapshot();
    assert_eq!(back.children.iter().map(|child| child.id).collect::<Vec<Ref>>(), vec![2, 3]);
    assert_eq!(back.children[1].children[0].name, "C");
}

/// A payload of attributes as the engine writes it: how many there are, then for each
/// the length of its name, its name, the mark of a string, the length of its value and
/// its value.
fn payload(entries: &[(&str, &[u8])]) -> Vec<u8> {
    let mut raw = (entries.len() as u32).to_le_bytes().to_vec();
    for (name, value) in entries {
        raw.extend((name.len() as u32).to_le_bytes());
        raw.extend(name.as_bytes());
        raw.push(2);
        raw.extend((value.len() as u32).to_le_bytes());
        raw.extend(*value);
    }
    raw
}

fn text_of(value: &AttributeValue) -> Vec<u8> {
    match value {
        AttributeValue::String(text) => text.as_bytes().to_vec(),
        AttributeValue::BinaryString(bytes) => bytes.clone(),
        AttributeValue::Opaque { .. } => panic!("not a text"),
    }
}

#[test]
fn exact_studio_route_attribute_is_removed_from_raw_server_storage_payload() {
    let marker = "4c0ad7cb-c6e7-4e62-8c35-b9537f0c1f30";
    let mut value =
        Variant::BinaryString(payload(&[("Authored", b"keep"), ("__MCPPlaceId", marker.as_bytes())]));

    assert!(strip_matching_mcp_place_id(&mut value, marker).unwrap());
    let Variant::Attributes(filtered) = value else { panic!("raw Attributes payload was not normalized") };
    assert!(filtered.get("__MCPPlaceId").is_none());
    assert_eq!(text_of(filtered.get("Authored").unwrap()), b"keep");
}

#[test]
fn mismatched_mcp_attribute_remains_authored() {
    let mut value = Variant::Attributes(attributes(vec![(
        "__MCPPlaceId",
        AttributeValue::BinaryString(b"authored-collision".to_vec()),
    )]));

    assert!(!strip_matching_mcp_place_id(&mut value, "active-route").unwrap());
    let Variant::Attributes(kept) = value else { panic!("structured Attributes payload changed type") };
    assert_eq!(text_of(kept.get("__MCPPlaceId").unwrap()), b"authored-collision");
}

#[test]
fn every_serialized_attributes_alias_is_sanitized_before_source_write() {
    let marker = "active-route";
    let mut written = properties(vec![(
        "AttributesReplicate",
        Variant::BinaryString(payload(&[("__MCPPlaceId", marker.as_bytes())])),
    )]);

    assert!(strip_studio_route_properties(&mut written, marker).unwrap());
    assert_eq!(written.len(), 0, "marker-only aliases must become a no-op write");
}

#[test]
fn disposable_worktree_attributes_are_sanitized_without_an_mcp_marker() {
    let mut written = properties(vec![(
        "Attributes",
        Variant::Attributes(attributes(vec![
            ("__StudioWorktree_CarbonGeneration", AttributeValue::BinaryString(b"generation".to_vec())),
            ("Authored", AttributeValue::String("keep".to_owned())),
        ])),
    )]);

    assert!(strip_studio_route_properties(&mut written, "active-route").unwrap());
    let Some(Variant::Attributes(kept)) = written.get("Attributes") else {
        panic!("authored attributes disappeared")
    };
    assert_eq!(text_of(kept.get("Authored").unwrap()), b"keep");
    assert!(kept.get("__StudioWorktree_CarbonGeneration").is_none());
}

#[test]
fn attributes_that_cannot_be_read_are_refused() {
    let mut broken = Variant::BinaryString(vec![1, 0, 0, 0, 9]);
    assert!(strip_matching_mcp_place_id(&mut broken, "marker").is_err());
}

#[test]
fn attributes_mean_the_same_however_they_are_carried() {
    let read = Variant::BinaryString(payload(&[("Authored", b"keep")]));
    let structured = Variant::Attributes(attributes(vec![("Authored", AttributeValue::String("keep".to_owned()))]));
    let other = Variant::Attributes(attributes(vec![("Authored", AttributeValue::String("lost".to_owned()))]));
    assert!(mapped_attributes_equal(&read, &structured));
    assert!(!mapped_attributes_equal(&read, &other));
}

fn number(payload: &[u8]) -> u32 {
    u32::from_le_bytes(payload[9..13].try_into().unwrap())
}

fn holds(payload: &[u8], id: Ref) -> bool {
    payload.windows(16).any(|window| window == id.to_be_bytes())
}

const BASE: Ref = 0x1111_2222_3333_4444_5555_6666_7777_0000;

#[test]
fn managed_identity_history_retains_removed_ids_across_live_source_replacement() {
    let contract = |script: Ref| {
        encode_managed_hierarchy(
            &Tree::new(node(BASE, "DataModel", "Fixture").with_children(vec![node(script, "Script", "Server")]))
                .unwrap(),
        )
        .unwrap()
    };
    let removed = BASE + 1;
    let added = BASE + 2;
    let initial = contract(removed);
    let replacement = contract(added);
    let replacement_ids = replacement.source_ids.clone();
    let authorized_ids = initial.source_ids.clone();
    let mut state = ManagedHierarchyState { current: initial, authorized_ids };

    install_managed_hierarchy_contract(&mut state, replacement);

    assert!(
        state.authorized_ids.contains(&removed),
        "the verified old identity is needed for Studio removal"
    );
    assert!(state.authorized_ids.contains(&added), "the replacement identity must become authorized");
    assert_eq!(state.current.source_ids, replacement_ids);
}

#[test]
fn managed_hierarchy_blob_is_compact_preorder_without_serialized_identity_properties() {
    let tree = Tree::new(node(BASE, "DataModel", "Fixture").with_children(vec![
        node(BASE + 1, "Folder", "Gameplay").with_children(vec![node(BASE + 2, "Script", "Main")]),
    ]))
    .unwrap();
    let contract = encode_managed_hierarchy(&tree).unwrap();
    let encoded = contract.payload;
    assert_eq!(&encoded[..9], b"CARBONID4");
    assert_eq!(number(&encoded), 3);
    assert!(encoded.len() < 256, "identity hierarchy should remain compact");
    assert!(!encoded.windows(8).any(|window| window == b"UniqueId"));
    assert_eq!(contract.contract_id.len(), 32);
    assert!(contract.contract_id.bytes().all(|digit| matches!(digit, b'0'..=b'9' | b'a'..=b'f')));
    assert_ne!(contract.contract_id, encode_managed_hierarchy(&tree).unwrap().contract_id);
}

#[test]
fn project_managed_hierarchy_is_constant_size_without_mappings() {
    let root = BASE;
    let workspace = BASE + 1;
    let manifest_root = BASE + 2;
    let manifest_children = (0..40_000)
        .map(|index| node(BASE + 10 + index, "Folder", &format!("Manifest{index:05}")))
        .collect();
    let tree = Tree::new(node(root, "DataModel", "Fixture").with_children(vec![node(
        workspace,
        "Workspace",
        "Workspace",
    )
    .with_children(vec![node(manifest_root, "Folder", "Manifest").with_children(manifest_children)])]))
    .unwrap();

    let contract =
        encode_project_managed_hierarchy(&tree, &services(&["Workspace"]), &HashSet::new(), &HashSet::new()).unwrap();
    assert_eq!(contract.source_instances, 2);
    assert_eq!(contract.source_ids, ids(&[root, workspace]));
    assert!(!contract.source_ids.contains(&manifest_root));
}

#[test]
fn project_managed_hierarchy_keeps_route_and_complete_mapped_subtree_only() {
    let root = BASE;
    let replicated_storage = BASE + 1;
    let mapped_root = BASE + 2;
    let mapped_script = BASE + 3;
    let manifest_sibling = BASE + 4;
    let tree = Tree::new(node(root, "DataModel", "Fixture").with_children(vec![node(
        replicated_storage,
        "ReplicatedStorage",
        "ReplicatedStorage",
    )
    .with_children(vec![
        node(mapped_root, "Folder", "Shared").with_children(vec![node(mapped_script, "ModuleScript", "Main")]),
        node(manifest_sibling, "Folder", "Captured"),
    ])]))
    .unwrap();

    let contract = encode_project_managed_hierarchy(
        &tree,
        &services(&["ReplicatedStorage"]),
        &ids(&[mapped_root]),
        &ids(&[replicated_storage]),
    )
    .unwrap();
    assert_eq!(contract.source_instances, 4);
    assert_eq!(contract.source_ids, ids(&[root, replicated_storage, mapped_root, mapped_script]));
    assert!(!contract.source_ids.contains(&manifest_sibling));
    let missing = encode_project_managed_hierarchy(&tree, &services(&[]), &ids(&[99]), &HashSet::new());
    assert!(matches!(missing, Err(ManagedError::MappedMissing(99))));
}

#[test]
fn managed_hierarchy_omits_only_the_workspace_edit_camera() {
    let edit_camera = BASE + 2;
    let authored_camera = BASE + 3;
    let tree = Tree::new(node(BASE, "DataModel", "").with_children(vec![node(BASE + 1, "Workspace", "Workspace")
        .with_properties(properties(vec![("CurrentCamera", Variant::Ref(edit_camera))]))
        .with_children(vec![node(edit_camera, "Camera", "Camera"), node(authored_camera, "Camera", "Camera")])]))
    .unwrap();

    let contract = encode_managed_hierarchy(&tree).unwrap();
    assert_eq!(contract.excluded_source_ids, [edit_camera]);
    assert_eq!(number(&contract.payload), 3);
    assert!(!holds(&contract.payload, edit_camera));
    assert!(holds(&contract.payload, authored_camera));
}

#[test]
fn managed_hierarchy_omits_only_status_children_of_humanoids() {
    let runtime_status = BASE + 3;
    let authored_status = BASE + 5;
    let tree = Tree::new(node(BASE, "DataModel", "").with_children(vec![
        node(BASE + 1, "Model", "Character").with_children(vec![node(BASE + 2, "Humanoid", "Humanoid")
            .with_children(vec![node(runtime_status, "Status", "Status")])]),
        node(BASE + 4, "Folder", "Authored").with_children(vec![node(authored_status, "Status", "Status")]),
    ]))
    .unwrap();

    let contract = encode_managed_hierarchy(&tree).unwrap();
    assert_eq!(contract.excluded_source_ids, [runtime_status]);
    assert_eq!(number(&contract.payload), 5);
    assert!(!holds(&contract.payload, runtime_status));
    assert!(holds(&contract.payload, authored_status));
}

#[test]
fn managed_hierarchy_omits_only_the_direct_internal_configure_server_service() {
    let internal_service = BASE + 1;
    let nested = BASE + 3;
    let tree = Tree::new(node(BASE, "DataModel", "").with_children(vec![
        node(internal_service, "ConfigureServerService", "ConfigureServerService"),
        node(BASE + 2, "Folder", "Authored")
            .with_children(vec![node(nested, "ConfigureServerService", "ConfigureServerService")]),
    ]))
    .unwrap();

    let contract = encode_managed_hierarchy(&tree).unwrap();
    assert_eq!(contract.excluded_source_ids, [internal_service]);
    assert_eq!(number(&contract.payload), 3);
    assert!(!holds(&contract.payload, internal_service));
    assert!(holds(&contract.payload, nested));
}

#[test]
fn managed_hierarchy_omits_only_redundant_accessory_attachment_welds() {
    let redundant_weld = BASE + 3;
    let handle = BASE + 5;
    let accessory_weld = BASE + 6;
    let accessory_constraint = BASE + 7;
    let authored_weld = BASE + 9;
    let tree = Tree::new(node(BASE, "DataModel", "").with_children(vec![node(BASE + 1, "Model", "Character")
        .with_children(vec![
            node(BASE + 2, "Part", "Head").with_children(vec![node(redundant_weld, "Weld", "HeadWeld")
                .with_properties(properties(vec![("Part1", Variant::Ref(handle))]))]),
            node(BASE + 4, "Accessory", "Hat").with_children(vec![node(handle, "Part", "Handle").with_children(vec![
                node(accessory_weld, "Weld", "AccessoryWeld"),
                node(accessory_constraint, "RigidConstraint", "AccessoryRigidConstraint"),
            ])]),
            node(BASE + 8, "Part", "Head").with_children(vec![node(authored_weld, "Weld", "HeadWeld")]),
        ])]))
    .unwrap();

    let contract = encode_managed_hierarchy(&tree).unwrap();
    assert_eq!(
        contract.excluded_source_ids.iter().copied().collect::<HashSet<u128>>(),
        ids(&[redundant_weld, accessory_weld])
    );
    assert_eq!(number(&contract.payload), 8);
    assert!(!holds(&contract.payload, redundant_weld));
    assert!(!holds(&contract.payload, accessory_weld));
    assert!(holds(&contract.payload, accessory_constraint));
    assert!(holds(&contract.payload, authored_weld));
}

#[test]
fn only_a_data_model_is_a_managed_hierarchy() {
    let tree = Tree::new(node(BASE, "Folder", "Fixture")).unwrap();
    let contract = encode_project_managed_hierarchy(&tree, &services(&[]), &HashSet::new(), &HashSet::new());
    assert!(matches!(contract, Err(ManagedError::RootNotDataModel)));
    let mut long = node(BASE, "DataModel", "Fixture");
    long.children.push(node(BASE + 1, &"c".repeat(70_000), "Folder"));
    assert!(matches!(
        encode_managed_hierarchy(&Tree::new(long).unwrap()),
        Err(ManagedError::ClassTooLong)
    ));
}
