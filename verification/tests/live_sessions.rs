use std::collections::{HashMap, HashSet};

use carbon::artifact::replaced_identities;
use carbon::capture::{
    fail_manifest_capture, settle_manifest_capture_worker, stop_automatic_capture, ManifestCaptureOperation,
    CAPTURE_COLLECTING, CAPTURE_COMMITTED, CAPTURE_RECOVERED,
};
use carbon::capture_run::{accept_recovery, RecoveryAcceptance, RecoveryFreshness};
use carbon::live_policy::LivePolicy;
use carbon::managed_hierarchy::{encode_project_managed_hierarchy, ManagedHierarchyState};
use carbon::project_diff::{diff_snapshots, SameFrames};
use carbon::project_routes::snapshot_refs_for_routes;
use carbon::reflection::Reflection;
use carbon::script_sources::{script_step, CanonicalSourceSnapshot, ScriptSourceCandidate, ScriptStep};
use carbon::shutdown::{
    monitor_continues, retain_last_successful_capture_for_idle_shutdown, retained_message, Retention,
    StudioChangeState,
};
use carbon::snapshot::{AddedSnapshot, Changes, Snapshot};
use carbon::text_map::TextMap;
use carbon::transactions::{single_receipt, Page, PageAction, TransactionError, TransactionState};
use carbon::tree::Tree;
use carbon::variant::Variant;
use carbon::watch::{decide_project_source, install_source_transaction, ProjectSourceCandidate, SourceDecision};
use carbon::Ref;

fn node(id: Ref, class: &str, name: &str) -> Snapshot {
    Snapshot::new().with_id(id).with_class(class).with_name(name)
}

fn page(sequence: u32, done: bool) -> Page {
    Page { client_id: 7, transaction_id: "11111111111111111111111111111111".to_owned(), sequence, done }
}

#[test]
fn transactions_take_their_pages_in_order() {
    let mut state = TransactionState::new(0);
    let first = b"first".as_slice();
    let second = b"second".as_slice();
    assert!(matches!(
        state.write_page(&page(1, false), second, "/spool/a".to_owned(), 1),
        Err(TransactionError::NotAtZero)
    ));
    match state.write_page(&page(0, false), first, "/spool/a".to_owned(), 2) {
        Ok(PageAction::Append { path }) => assert_eq!(path, "/spool/a"),
        _ => panic!("a first page opens a spool"),
    }
    assert!(state.record_page(&page(0, false), first, 3).is_none());
    assert!(matches!(
        state.write_page(&page(0, false), first, "/spool/b".to_owned(), 4),
        Ok(PageAction::Accepted)
    ));
    assert!(matches!(
        state.write_page(&page(0, false), second, "/spool/b".to_owned(), 4),
        Err(TransactionError::AcceptedReplayDiffers)
    ));
    assert!(matches!(
        state.write_page(&page(5, false), second, "/spool/b".to_owned(), 4),
        Err(TransactionError::OutOfSequence)
    ));
    match state.write_page(&page(1, true), second, "/spool/b".to_owned(), 5) {
        Ok(PageAction::Append { path }) => assert_eq!(path, "/spool/a"),
        _ => panic!("a last page is appended"),
    }
    let (path, pages) = state.record_page(&page(1, true), second, 6).unwrap();
    assert_eq!(path, "/spool/a");
    assert_eq!(pages.len(), 2);
    state.complete(7, page(0, true).transaction_id, pages, "generation-2".to_owned(), 7);
    match state.write_page(&page(1, true), second, "/spool/c".to_owned(), 8) {
        Ok(PageAction::Committed(generation)) => assert_eq!(generation, "generation-2"),
        _ => panic!("a written page is answered again"),
    }
}

#[test]
fn transactions_with_one_page_are_written_directly() {
    let mut state = TransactionState::new(0);
    assert!(matches!(
        state.write_page(&page(0, true), b"only", "/spool/a".to_owned(), 1),
        Ok(PageAction::WriteDirect)
    ));
    state.complete(7, page(0, true).transaction_id, single_receipt(b"only"), "generation-1".to_owned(), 2);
    assert!(matches!(
        state.write_page(&page(0, true), b"only", "/spool/b".to_owned(), 3),
        Ok(PageAction::Committed(_))
    ));
    assert!(matches!(
        state.write_page(&page(0, true), b"other", "/spool/b".to_owned(), 3),
        Err(TransactionError::CommittedReplayDiffers)
    ));
    assert!(matches!(
        state.write_page(&page(1, true), b"only", "/spool/b".to_owned(), 3),
        Err(TransactionError::UnexpectedReplay)
    ));
    assert!(state.spools.is_empty());
}

#[test]
fn transactions_are_dropped_when_they_are_aborted_or_stale() {
    let mut state = TransactionState::new(0);
    state.write_page(&page(0, false), b"first", "/spool/a".to_owned(), 1).unwrap();
    state.record_page(&page(0, false), b"first", 1);
    assert_eq!(state.abort(7, "22222222222222222222222222222222"), None);
    assert_eq!(state.abort(7, "11111111111111111111111111111111"), Some("/spool/a".to_owned()));

    state.write_page(&page(0, false), b"first", "/spool/b".to_owned(), 2).unwrap();
    state.record_page(&page(0, false), b"first", 2);
    assert!(state.clean_up(3).is_empty());
    assert_eq!(state.clean_up(1_000_000_000), vec!["/spool/b".to_owned()]);
    assert!(state.spools.is_empty());
}

fn operation(phase: u8, worker_active: bool) -> Option<ManifestCaptureOperation> {
    Some(ManifestCaptureOperation {
        request_id: "capture".to_owned(),
        client_id: 7,
        source_generation: "generation".to_owned(),
        state: "running".to_owned(),
        message: None,
        phase,
        worker_active,
    })
}

#[test]
fn failed_captures_keep_what_is_committed() {
    let mut running = operation(CAPTURE_COLLECTING, true);
    fail_manifest_capture(&mut running, "other", "no".to_owned());
    assert_eq!(running.as_ref().unwrap().state, "running");
    fail_manifest_capture(&mut running, "capture", "no".to_owned());
    assert_eq!(running.as_ref().unwrap().state, "failed");
    assert_eq!(running.as_ref().unwrap().message.as_deref(), Some("no"));
    settle_manifest_capture_worker(&mut running, "capture");
    assert!(!running.unwrap().worker_active);

    let mut committed = operation(CAPTURE_COMMITTED, true);
    fail_manifest_capture(&mut committed, "capture", "no".to_owned());
    assert_eq!(committed.unwrap().state, "running");
}

#[test]
fn stopping_the_monitor_waits_for_its_worker() {
    let mut running = operation(CAPTURE_COLLECTING, true);
    assert!(stop_automatic_capture(&mut running));
    assert_eq!(running.as_ref().unwrap().state, "failed");
    assert!(stop_automatic_capture(&mut running));
    settle_manifest_capture_worker(&mut running, "capture");
    assert!(!stop_automatic_capture(&mut running));
    assert!(!stop_automatic_capture(&mut None));
    assert!(monitor_continues(true, false, true));
    assert!(!monitor_continues(true, true, true));
    assert!(!monitor_continues(true, false, false));
}

#[test]
fn recovered_places_are_taken_if_they_are_new_or_known() {
    let known = Some("generation".to_owned());
    let mut phase = CAPTURE_COLLECTING;
    let taken = accept_recovery(
        &mut phase,
        RecoveryFreshness::Preexisting,
        Ok(Some("other".to_owned())),
        &known,
    );
    assert!(!matches!(taken, Ok(RecoveryAcceptance::Accept)));
    assert_eq!(phase, CAPTURE_COLLECTING);
    let taken =
        accept_recovery(&mut phase, RecoveryFreshness::New, Ok(Some("generation".to_owned())), &known).unwrap();
    assert_eq!(taken, RecoveryAcceptance::Accept);
    assert_eq!(phase, CAPTURE_RECOVERED);
}

#[test]
fn scripts_are_told_only_when_they_changed() {
    let candidate = |generation: &str, changes: Changes| ScriptSourceCandidate {
        snapshot: CanonicalSourceSnapshot { generation: generation.to_owned(), scripts: TextMap::new() },
        changes,
    };
    let mut removed = Changes::new();
    removed.removals.push(3);
    assert_eq!(script_step(&candidate("a", Changes::new()), "a"), ScriptStep::Ignore);
    assert_eq!(script_step(&candidate("b", Changes::new()), "a"), ScriptStep::Advance);
    assert_eq!(script_step(&candidate("b", removed), "a"), ScriptStep::Tell);
}

fn retention(studio: &str) -> Retention {
    retain_last_successful_capture_for_idle_shutdown(
        &mut operation(CAPTURE_COLLECTING, true),
        &Some("generation".to_owned()),
        "generation",
        true,
        &Some(studio.to_owned()),
        &Some("studio-clean-1".to_owned()),
    )
}

#[test]
fn shutdown_reuses_the_last_successful_capture_when_the_monitor_is_idle() {
    match retention("studio-clean-1") {
        Retention::Await(request) => assert_eq!(request, "capture"),
        _ => panic!("the last capture is retained"),
    }
    assert!(retained_message("/game/place.carbon").contains("retained valid manifest"));
}

#[test]
fn shutdown_does_not_reuse_a_capture_that_predates_a_live_studio_edit() {
    assert!(matches!(retention("studio-edit-2"), Retention::Capture));
}

#[test]
fn withdrawn_questions_can_be_asked_again() {
    let mut state = StudioChangeState { last_captured_generation: None, pending_probe: None };
    state.begin_probe("first".to_owned()).unwrap();
    assert!(state.begin_probe("second".to_owned()).is_err());
    state.withdraw_probe();
    assert!(state.begin_probe("second".to_owned()).is_ok());
}

#[test]
fn replaced_instances_are_added_and_removed_in_one_transaction() {
    let mut first = Changes::new();
    first.removals = vec![2, 3];
    let mut second = Changes::new();
    second.additions.push(AddedSnapshot {
        id: 3,
        parent: 1,
        name: "Again".to_owned(),
        raw_name: None,
        class: "Folder".to_owned(),
        properties: TextMap::new(),
        children: Vec::new(),
    });
    assert_eq!(replaced_identities(&vec![first, second]), HashSet::from([3]));
}

#[test]
fn output_order_is_by_class_name_and_identity() {
    let mut tree = Tree::new(node(1, "DataModel", "Game").with_children(vec![
        node(2, "Part", "A"),
        node(3, "Folder", "B"),
        node(5, "Folder", "A"),
        node(4, "Folder", "A"),
    ]))
    .unwrap();
    tree.canonicalize_output_order();
    assert_eq!(tree.root().children(), &vec![4, 5, 3, 2]);
    tree.get_instance_mut(3).unwrap().name = "0".to_owned();
    assert!(tree.get_instance_mut(9).is_none());
    tree.canonicalize_output_order();
    assert_eq!(tree.root().children(), &vec![3, 4, 5, 2]);
}

fn place(source: &str) -> Snapshot {
    let mut properties = TextMap::new();
    properties.insert("Source".to_owned(), Variant::String(source.to_owned()));
    node(1, "DataModel", "Game").with_children(vec![node(2, "ReplicatedStorage", "ReplicatedStorage").with_children(
        vec![node(3, "Folder", "Shared").with_children(vec![node(4, "ModuleScript", "Main").with_properties(properties)])],
    )])
}

#[test]
fn changed_source_becomes_one_transaction() {
    let reflection = Reflection { classes: TextMap::new() };
    let frames = SameFrames { properties: HashMap::new() };
    let routes = vec![vec!["ReplicatedStorage".to_owned(), "Shared".to_owned()]];
    let before = place("return 1");
    let (mapped_refs, mapped_roots, routing_refs) = snapshot_refs_for_routes(&before, &routes).unwrap();
    let tree = Tree::new(before.clone()).unwrap();
    let mut hierarchy = ManagedHierarchyState {
        current: encode_project_managed_hierarchy(&tree, &reflection, &mapped_refs, &routing_refs).unwrap(),
        authorized_ids: HashSet::new(),
    };
    let mut policy = LivePolicy {
        project_path: "/game/game.carbon.json".to_owned(),
        project_document: b"{}".to_vec(),
        composite_manifest: "/game/state.carbon".to_owned(),
        mapped_refs,
        retired_mapped_refs: HashSet::new(),
        mapped_roots,
        mapped_watch_roots: Vec::new(),
        routing_refs,
    };
    let candidate = |source: &str, roots: Vec<String>| ProjectSourceCandidate {
        snapshot: place(source),
        routes: routes.clone(),
        watch_roots: roots,
    };
    let decide = |policy: &LivePolicy, next: &ProjectSourceCandidate| {
        decide_project_source(policy, &before, next, &reflection, &frames)
    };
    assert!(matches!(decide(&policy, &candidate("return 1", Vec::new())), SourceDecision::Unchanged));
    assert!(matches!(
        decide(&policy, &candidate("return 1", vec!["/elsewhere".to_owned()])),
        SourceDecision::WatchRootsChanged
    ));
    match decide(&policy, &candidate("return 2", Vec::new())) {
        SourceDecision::Apply(transaction) => {
            assert_eq!(transaction.changes.updates.len(), 1);
            assert_eq!(transaction.changes.updates[0].id, 4);
            assert_eq!(transaction.mapped_roots, vec![3]);
            install_source_transaction(&mut policy, &mut hierarchy, transaction, Vec::new());
        }
        _ => panic!("changed source is applied"),
    }
    assert!(policy.mapped_refs.contains(&4));
    assert!(hierarchy.authorized_ids.contains(&4));
}

#[test]
fn differences_turn_one_place_into_the_other() {
    let reflection = Reflection { classes: TextMap::new() };
    let frames = SameFrames { properties: HashMap::new() };
    let before = node(1, "DataModel", "Game").with_children(vec![
        node(2, "Folder", "Kept").with_children(vec![node(3, "Part", "Moved"), node(4, "Part", "Gone")
            .with_children(vec![node(5, "Part", "GoneBelow")])]),
        node(6, "Folder", "Named"),
    ]);
    let mut properties = TextMap::new();
    properties.insert("Value".to_owned(), Variant::String("new".to_owned()));
    let after = node(1, "DataModel", "Game").with_children(vec![
        node(2, "Folder", "Kept").with_properties(properties),
        node(6, "Folder", "Renamed").with_children(vec![
            node(3, "Part", "Moved"),
            node(7, "Part", "New").with_children(vec![node(8, "Part", "NewBelow")]),
        ]),
    ]);
    let changes = diff_snapshots(&reflection, &frames, &before, &after);
    assert_eq!(changes.removals, vec![4]);
    assert_eq!(changes.additions.len(), 1);
    assert_eq!(changes.updates.len(), 3);

    let mut tree = Tree::new(before).unwrap();
    for update in changes.updates {
        tree.apply_update(update).unwrap();
    }
    for addition in changes.additions {
        let parent = addition.parent;
        let added = node(addition.id, &addition.class, &addition.name)
            .with_properties(addition.properties)
            .with_children(addition.children);
        tree.insert_instance_recursive(added, parent).unwrap();
    }
    for removal in changes.removals {
        tree.remove_instance(removal);
    }
    let expected = Tree::new(after).unwrap().into_snapshot();
    assert_eq!(format!("{:?}", tree.into_snapshot()), format!("{expected:?}"));
}
