use std::collections::HashSet;

use carbon::place::PlaceStructure;
use carbon::place_diff::{compare, truncate, DiffReport, Impact};
use carbon::place_values::is_braced_uuid;
use carbon::reflection::{ClassInfo, Reflection};
use carbon::snapshot::Snapshot;
use carbon::text_map::TextMap;
use carbon::variant::{Properties, Variant};
use carbon::Ref;

fn properties(entries: Vec<(&str, Variant)>) -> Properties {
    let mut properties = TextMap::new();
    for (name, value) in entries {
        properties.insert(name.to_owned(), value);
    }
    properties
}

fn node(id: Ref, class: &str, name: &str) -> Snapshot {
    Snapshot::new().with_id(id).with_class(class).with_name(name)
}

fn text(value: &str) -> Variant {
    Variant::String(value.to_owned())
}

fn reflection() -> Reflection {
    let mut classes = TextMap::new();
    for (name, service) in
        [("Folder", false), ("StringValue", false), ("ObjectValue", false), ("HttpService", true), ("Script", false)]
    {
        classes.insert(
            name.to_owned(),
            ClassInfo { superclass: None, service, properties: TextMap::new(), defaults: TextMap::new() },
        );
    }
    Reflection { classes }
}

fn place(path: &str, children: Vec<Snapshot>) -> PlaceStructure {
    PlaceStructure::load(
        path.to_owned(),
        &node(1, "DataModel", "DataModel").with_children(children),
        TextMap::new(),
        "CarbonId".to_owned(),
        HashSet::new(),
        &reflection(),
    )
}

fn report(left: Vec<Snapshot>, right: Vec<Snapshot>) -> DiffReport {
    compare(&place("left.rbxl", left), &place("right.rbxl", right), &reflection(), 100)
}

fn unique(first: u8) -> Variant {
    Variant::plain("UniqueId", vec![first; 16])
}

#[test]
fn gameplay_changes_block_while_unique_ids_and_order_do_not() {
    let value = |id: Ref, value: &str, identity: u8| {
        node(id, "StringValue", "A")
            .with_properties(properties(vec![("Value", text(value)), ("UniqueId", unique(identity))]))
    };
    let found = report(
        vec![value(2, "before", 1), node(3, "Folder", "B")],
        vec![node(13, "Folder", "B"), value(12, "after", 2)],
    );
    assert_eq!(found.blocking_differences, 1);
    assert!(found.has_blockers());
    assert!(found.non_gameplay_differences >= 2);
    assert!(found
        .differences
        .iter()
        .any(|difference| difference.property.as_deref() == Some("Value")
            && difference.impact == Impact::PotentialGameplay));
    assert!(found.differences.iter().any(|difference| difference.kind == "unique_id"));
    assert!(found.differences.iter().any(|difference| difference.kind == "instance_order"));
}

#[test]
fn the_same_place_has_no_differences() {
    let children = || vec![node(2, "Folder", "Same").with_children(vec![node(3, "Script", "Main")])];
    let found = report(children(), children());
    assert_eq!(found.blocking_differences, 0);
    assert_eq!(found.non_gameplay_differences, 0);
    assert_eq!((found.before_instances, found.after_instances, found.matched_instances), (2, 2, 2));
    assert!(!found.has_blockers());
}

#[test]
fn added_and_removed_instances_block() {
    let found = report(
        vec![node(2, "Folder", "Kept"), node(3, "Folder", "Gone").with_children(vec![node(4, "Script", "Main")])],
        vec![node(12, "Folder", "Kept"), node(13, "StringValue", "New")],
    );
    assert_eq!(found.removed_instances, 2);
    assert_eq!(found.added_instances, 1);
    assert!(found.blocking_differences >= 2);
}

#[test]
fn an_empty_service_may_be_missing() {
    let found = report(vec![node(2, "HttpService", "HttpService")], vec![]);
    assert_eq!(found.blocking_differences, 0);
    assert_eq!(found.non_gameplay_differences, 1);
}

#[test]
fn reordered_duplicates_are_matched_by_what_is_below_them() {
    let holder = |id: Ref, value: &str| {
        node(id, "Folder", "Twin").with_children(vec![
            node(id + 1, "StringValue", "Value").with_properties(properties(vec![("Value", text(value))]))
        ])
    };
    let found = report(vec![holder(2, "a"), holder(4, "b")], vec![holder(14, "b"), holder(12, "a")]);
    assert_eq!(found.blocking_differences, 0);
    assert_eq!(found.matched_instances, 4);
}

#[test]
fn references_agree_where_their_targets_are_matched() {
    let place = |base: Ref, target: Ref| {
        vec![
            node(base, "Folder", "A"),
            node(base + 1, "Folder", "B"),
            node(base + 2, "ObjectValue", "Holder")
                .with_properties(properties(vec![("Value", Variant::Ref(base + target))])),
        ]
    };
    assert_eq!(report(place(2, 0), place(12, 0)).blocking_differences, 0);
    assert_eq!(report(place(2, 0), place(12, 1)).blocking_differences, 1);
}

#[test]
fn a_script_guid_is_studios_own() {
    let script = |id: Ref, guid: &str| {
        vec![node(id, "Script", "Main")
            .with_properties(properties(vec![("ScriptGuid", text(guid)), ("Source", text("return 1"))]))]
    };
    let found = report(script(2, "{a}"), script(12, "{b}"));
    assert_eq!(found.blocking_differences, 0);
    assert_eq!(found.non_gameplay_differences, 1);
}

#[test]
fn details_are_cut_off_and_long_values_shortened() {
    let values = |base: Ref, value: &str| {
        (0..4)
            .map(|index| {
                node(base + index, "StringValue", &format!("V{index}"))
                    .with_properties(properties(vec![("Value", text(value))]))
            })
            .collect::<Vec<Snapshot>>()
    };
    let found =
        compare(&place("left", values(2, "a")), &place("right", values(12, "b")), &reflection(), 2);
    assert_eq!(found.blocking_differences, 4);
    assert_eq!(found.differences.len(), 2);
    assert!(found.details_truncated);
    let all = compare(&place("left", values(2, "a")), &place("right", values(12, "b")), &reflection(), 10);
    assert_eq!(all.blocking_differences, 4);
    assert_eq!(all.differences.len(), 4);
    assert!(!all.details_truncated);
    for (few, many) in found.differences.iter().zip(&all.differences) {
        assert_eq!(format!("{few:?}"), format!("{many:?}"));
    }
    assert_eq!(truncate("short", 240), "short");
    assert_eq!(truncate("abcdef", 3), "abc…");
    assert_eq!(truncate("aé", 2), "a…");
}

#[test]
fn uuids_are_read_in_four_forms() {
    let digits = "0123456789abcdef0123456789ABCDEF";
    let hyphenated = "01234567-89ab-cdef-0123-456789ABCDEF";
    for inner in [
        digits.to_owned(),
        hyphenated.to_owned(),
        format!("{{{hyphenated}}}"),
        format!("urn:uuid:{hyphenated}"),
        format!("URN:Uuid:{hyphenated}"),
    ] {
        assert!(is_braced_uuid(&format!("{{{inner}}}")), "{inner}");
    }
    for inner in [
        String::new(),
        digits[1..].to_owned(),
        format!("{{{digits}}}"),
        format!("urn-uuid:{hyphenated}"),
        format!("urn:uuid:{digits}"),
        hyphenated.replace("89ab", "89ag"),
        hyphenated.replace("7-8", "-78"),
        "\u{e9}".repeat(16),
    ] {
        assert!(!is_braced_uuid(&format!("{{{inner}}}")), "{inner}");
    }
}

#[test]
fn places_show_the_way_to_an_instance() {
    let shown = place("left", vec![node(2, "Folder", "A").with_children(vec![node(3, "Folder", "B")])]);
    let index = *shown.by_ref.get(&3).unwrap();
    assert!(shown.display_path(index).contains('B'));
    assert_eq!(shown.subtree_size(*shown.by_ref.get(&2).unwrap()), 2);
}
