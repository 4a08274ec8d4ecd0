use carbon::artifact::{
    commit_capture_noop, conclude_write, finish_prepared_capture, validate_and_claim_capture, CapturePrecommitAttestation,
    CommitError, StudioPosition,
};
use carbon::capture::{
    begin_managed_reload_transition, begin_manifest_capture, cancel_manifest_capture, claim_capture_cancel,
    claim_capture_commit, claim_capture_recovery, claim_idle_capture_cancel, complete_managed_reload_transition,
    joinable_automatic_manifest_capture_status, status_of_request, CaptureError, CaptureRequest, ManifestCaptureOperation,
    ManifestCaptureStatus, CAPTURE_CANCELLED, CAPTURE_COLLECTING, CAPTURE_COMMITTED, CAPTURE_COMMITTING,
    CAPTURE_RECOVERED,
};
use carbon::capture_run::{
    recovery_matches_studio_generation, CaptureAction, CaptureEvent, CaptureRun, RecoveryFreshness,
};
use carbon::manifest_identity::{pack_index, unpack_index, IdentityColumn, ManifestIdentityAllocator, PREFIX_BYTES};
use carbon::program::{verify, Program, ProgramName};
use carbon::queue::{Queue, StudioRoute};
use carbon::script_sources::{script_source_candidate_from_snapshot, CanonicalSourceSnapshot};
use carbon::shutdown::{
    is_transient_manifest_capture_error, retained_after_disconnection, wait_for_automatic_capture,
    wait_for_project_synchronization, AutomaticStep, ProbeStep, ShutdownCoordinator, ShutdownEntry, StudioChangeState,
    SynchronizationError, SynchronizationStep, PROJECT_SYNC_POLL_INTERVAL,
};
use carbon::text_map::TextMap;
use carbon::transactions::{page_frame, spool_pages};
use carbon::watch::{
    coalesce_stable_read, ManifestCheck, ManifestReadResult, ReloadSignalState, StableAction, StableEvent, StableRead,
};
use carbon::watch_roots::project_watch_roots;

fn path(parts: &[&str]) -> Vec<String> {
    parts.iter().map(|part| part.to_string()).collect()
}

fn operation(worker_active: bool) -> Option<ManifestCaptureOperation> {
    Some(ManifestCaptureOperation {
        request_id: "capture".to_owned(),
        client_id: 7,
        source_generation: "served-generation".to_owned(),
        state: "running".to_owned(),
        message: Some("committing".to_owned()),
        phase: CAPTURE_COMMITTING,
        worker_active,
    })
}

#[test]
fn structured_identities_round_trip_compactly() {
    const COUNT: usize = 100_000;
    let prefixes = [[0x11; PREFIX_BYTES], [0x22; PREFIX_BYTES]];
    let mut allocator = ManifestIdentityAllocator::from_prefixes(prefixes.to_vec());
    let identities = (0..COUNT).map(|_| allocator.next().unwrap()).collect::<Vec<u128>>();

    assert_eq!(&identities[0].to_be_bytes()[..PREFIX_BYTES], &prefixes[0]);
    assert_eq!(u16::from_be_bytes(identities[0].to_be_bytes()[PREFIX_BYTES..].try_into().unwrap()), 0);
    assert_eq!(&identities[65_535].to_be_bytes()[..PREFIX_BYTES], &prefixes[0]);
    assert_eq!(
        u16::from_be_bytes(identities[65_535].to_be_bytes()[PREFIX_BYTES..].try_into().unwrap()),
        u16::MAX
    );
    assert_eq!(&identities[65_536].to_be_bytes()[..PREFIX_BYTES], &prefixes[1]);
    assert_eq!(u16::from_be_bytes(identities[65_536].to_be_bytes()[PREFIX_BYTES..].try_into().unwrap()), 0);

    let identity_bytes = identities.iter().map(|identity| identity.to_be_bytes()).collect::<Vec<[u8; 16]>>();
    let column = IdentityColumn::encode(&identity_bytes).unwrap();
    assert!(column.encoded_len() < PREFIX_BYTES * prefixes.len() + COUNT * 3);
    assert_eq!(column.decode(COUNT).unwrap(), identity_bytes);
}

#[test]
fn identity_column_rejects_noncanonical_and_duplicate_values() {
    let mut first = [0x11; 16];
    first[14..].copy_from_slice(&0_u16.to_be_bytes());
    let mut second = [0x22; 16];
    second[14..].copy_from_slice(&1_u16.to_be_bytes());
    let ids = [first, second];

    let mut padded = IdentityColumn::encode(&ids).unwrap();
    padded.block_indexes[0] |= 0x80;
    assert_eq!(padded.decode(ids.len()).unwrap_err().message(), "identity block index padding is nonzero");

    let mut unsorted = IdentityColumn::encode(&ids).unwrap();
    let (left, right) = unsorted.prefixes.split_at_mut(PREFIX_BYTES);
    left.swap_with_slice(right);
    assert_eq!(
        unsorted.decode(ids.len()).unwrap_err().message(),
        "identity allocation prefixes are not canonical"
    );

    let mut unused = IdentityColumn::encode(&ids).unwrap();
    unused.block_indexes[0] = 0;
    assert_eq!(unused.decode(ids.len()).unwrap_err().message(), "identity allocation prefix is unused");

    assert_eq!(IdentityColumn::encode(&[first, first]).unwrap_err().message(), "Carbon identity is duplicated");
}

#[test]
fn identities_come_in_blocks_from_the_beginning_on() {
    let mut allocator = ManifestIdentityAllocator::new();
    let ids = (0..70_000).map(|_| allocator.next().unwrap()).collect::<Vec<u128>>();
    for (place, id) in ids.iter().enumerate() {
        assert_ne!(*id, 0);
        assert_eq!((id % 65_536) as usize, place % 65_536);
        assert_eq!(id / 65_536 == ids[0] / 65_536, place < 65_536);
        assert_eq!(id / 65_536 == ids[65_536] / 65_536, place >= 65_536);
    }
}

#[test]
fn read_columns_are_written_the_same() {
    let ids = [[0x33; 16], [0x11; 16], [0x22; 16], [0x44; 16], [0x12; 16]];
    let column = IdentityColumn::encode(&ids).unwrap();
    let read = column.decode(ids.len()).unwrap();
    assert_eq!(read, ids);
    let again = IdentityColumn::encode(&read).unwrap();
    assert_eq!(again.prefixes, column.prefixes);
    assert_eq!(again.index_bits, column.index_bits);
    assert_eq!(again.block_indexes, column.block_indexes);
    assert_eq!(again.counters, column.counters);
}

#[test]
fn packed_indexes_are_read_back() {
    let mut bytes = vec![0; 4];
    pack_index(&mut bytes, 1, 5, 19);
    pack_index(&mut bytes, 4, 5, 21);
    assert_eq!(bytes, [0x60, 0x02, 0x50, 0x01]);
    let read = (0..6).map(|ordinal| unpack_index(&bytes, ordinal, 5)).collect::<Vec<usize>>();
    assert_eq!(read, [0, 19, 0, 0, 21, 0]);
}

#[test]
fn identity_column_reports_each_malformed_column() {
    let column = |prefixes: usize, index_bits: u8, indexes: usize, counters: usize| IdentityColumn {
        prefixes: vec![0x11; prefixes],
        index_bits,
        block_indexes: vec![0; indexes],
        counters: vec![0; counters],
    };
    assert_eq!(
        column(13, 0, 0, 0).decode(0).unwrap_err().message(),
        "identity prefix column length is invalid"
    );
    assert_eq!(
        column(0, 0, 0, 2).decode(1).unwrap_err().message(),
        "nonempty identity column has no allocation prefixes"
    );
    assert_eq!(
        column(14, 1, 0, 2).decode(1).unwrap_err().message(),
        "identity block index width is not canonical"
    );
    assert_eq!(
        column(14, 0, 1, 2).decode(1).unwrap_err().message(),
        "identity block index column length is invalid"
    );
    assert_eq!(
        column(14, 0, 0, 3).decode(1).unwrap_err().message(),
        "identity counter column length is invalid"
    );
    assert_eq!(IdentityColumn::encode(&[[0; 16]]).unwrap_err().message(), "Carbon identity cannot be zero");
    assert_eq!(IdentityColumn::encode(&[]).unwrap().decode(0).unwrap(), Vec::<[u8; 16]>::new());
}

#[test]
fn random_allocators_issue_different_identities() {
    let mut allocator = ManifestIdentityAllocator::new();
    let first = allocator.next().unwrap();
    let second = allocator.next().unwrap();
    assert_eq!(first + 1, second);
    let mut other = ManifestIdentityAllocator::new();
    assert_ne!(other.next().unwrap() >> 16, first >> 16);
    assert_ne!(first >> 16, 0);
}

#[test]
fn exhausted_prefixes_are_reported_and_repeated_ones_skipped() {
    let mut allocator = ManifestIdentityAllocator::from_prefixes(vec![[0; 14], [0x11; 14], [0x11; 14]]);
    assert_eq!(allocator.next().unwrap() & 0xffff, 0);
    for _ in 1..65_536 {
        allocator.next().unwrap();
    }
    assert!(allocator.next().is_err());
}

#[test]
fn pending_project_realization_waits_for_synchronization() {
    let mut checks = 0;
    let mut waits = 0;
    let result = loop {
        checks += 1;
        let checked = if checks < 3 { Err(SynchronizationError::Pending) } else { Ok("synchronized") };
        match wait_for_project_synchronization(checked, false) {
            SynchronizationStep::Done(value) => break value,
            SynchronizationStep::Wait(pause) => {
                assert_eq!(pause, PROJECT_SYNC_POLL_INTERVAL);
                waits += 1;
            }
            SynchronizationStep::Failed(_) => panic!("synchronization failed"),
        }
    };
    assert_eq!(result, "synchronized");
    assert_eq!(checks, 3);
    assert_eq!(waits, 2);
}

#[test]
fn pending_project_realization_wait_is_bounded() {
    let mut waits = 0;
    let error = loop {
        match wait_for_project_synchronization::<()>(Err(SynchronizationError::Pending), waits >= 1) {
            SynchronizationStep::Done(_) => panic!("never synchronized"),
            SynchronizationStep::Wait(_) => waits += 1,
            SynchronizationStep::Failed(error) => break error,
        }
    };
    assert!(matches!(error, SynchronizationError::Pending));
    assert_eq!(waits, 1);
}

#[test]
fn synchronization_errors_that_are_not_pending_end_the_wait() {
    let step = wait_for_project_synchronization::<()>(Err(SynchronizationError::Other("broken".to_owned())), false);
    assert!(matches!(step, SynchronizationStep::Failed(SynchronizationError::Other(text)) if text == "broken"));
}

#[test]
fn shutdown_capture_joins_only_an_active_capture() {
    let active = operation(true);
    let status = joinable_automatic_manifest_capture_status(&active).unwrap();
    assert_eq!(status.request_id, "capture");
    assert_eq!(status.state, "running");
    assert!(joinable_automatic_manifest_capture_status(&operation(false)).is_none());
}

#[test]
fn preexisting_recovery_requires_the_current_studio_generation() {
    let generation = |number: &str| Some(format!("studio-generation-{number}"));
    assert!(recovery_matches_studio_generation(RecoveryFreshness::Preexisting, &generation("1"), &generation("1")));
    assert!(!recovery_matches_studio_generation(RecoveryFreshness::Preexisting, &generation("1"), &generation("2")));
    assert!(!recovery_matches_studio_generation(RecoveryFreshness::Preexisting, &generation("1"), &None));
    assert!(recovery_matches_studio_generation(RecoveryFreshness::New, &None, &None));
}

#[test]
fn project_watches_external_pesde_targets_without_duplicate_nested_roots() {
    let project_root = path(&["/", "workspace", "game"]);
    let roots = project_watch_roots(
        &project_root,
        &vec![
            path(&["/", "dependencies", "package", "src"]),
            path(&["/", "workspace", "game", "roblox_packages", ".pesde"]),
            path(&["/", "dependencies", "package"]),
            path(&["/", "dependencies", "package"]),
        ],
    );
    assert_eq!(roots, vec![project_root, path(&["/", "dependencies", "package"])]);
}

#[test]
fn watch_roots_do_not_depend_on_the_order_of_the_mappings() {
    let project_root = path(&["/", "game"]);
    let [deep, b, a] = [path(&["/", "lib", "x", "y"]), path(&["/", "b"]), path(&["/", "a"])];
    let expected = vec![project_root.clone(), a.clone(), b.clone(), deep.clone()];
    assert_eq!(project_watch_roots(&project_root, &vec![deep.clone(), b.clone(), a.clone()]), expected);
    assert_eq!(project_watch_roots(&project_root, &vec![a.clone(), deep.clone(), a, b.clone(), deep, b]), expected);
}

#[test]
fn accepted_capture_cancellation_closes_the_commit_gate() {
    let mut phase = CAPTURE_COLLECTING;
    claim_capture_cancel(&mut phase).unwrap();
    assert_eq!(phase, CAPTURE_CANCELLED);
    assert!(claim_capture_commit(&mut phase).unwrap_err().message().contains("cancelled before commit"));
}

#[test]
fn idle_shutdown_cancellation_cannot_discard_accepted_recovery() {
    let mut phase = CAPTURE_COLLECTING;
    claim_capture_recovery(&mut phase).unwrap();
    assert_eq!(phase, CAPTURE_RECOVERED);
    assert!(claim_idle_capture_cancel(&mut phase).unwrap_err().message().contains("received recovery evidence"));
    assert_eq!(phase, CAPTURE_RECOVERED);
}

#[test]
fn capture_cancellation_is_rejected_after_atomic_commit_begins() {
    let mut phase = CAPTURE_COLLECTING;
    claim_capture_recovery(&mut phase).unwrap();
    claim_capture_commit(&mut phase).unwrap();
    assert_eq!(phase, CAPTURE_COMMITTING);
    assert!(claim_capture_cancel(&mut phase).unwrap_err().message().contains("can no longer be cancelled"));
}

#[test]
fn capture_claim_occurs_only_after_generation_and_attestation_succeed() {
    let mut phase = CAPTURE_COLLECTING;
    let error = validate_and_claim_capture(&mut phase, "expected", "stale", Ok(())).unwrap_err();
    assert!(error.message().contains("served source changed"));
    assert_eq!(phase, CAPTURE_COLLECTING);

    let refused = Err(CommitError::Other("attestation changed".to_owned()));
    let error = validate_and_claim_capture(&mut phase, "expected", "expected", refused).unwrap_err();
    assert!(error.message().contains("attestation changed"));
    assert_eq!(phase, CAPTURE_COLLECTING);

    validate_and_claim_capture(&mut phase, "expected", "expected", Ok(())).unwrap();
    assert_eq!(phase, CAPTURE_COMMITTING);
}

#[test]
fn prepared_captures_commit_once_they_are_promoted() {
    let mut phase = CAPTURE_COMMITTING;
    let generation = finish_prepared_capture(&mut phase, Ok("next".to_owned())).unwrap();
    assert_eq!(generation, Some("next".to_owned()));
    assert_eq!(phase, CAPTURE_COMMITTED);

    let mut unchanged = CAPTURE_RECOVERED;
    assert!(commit_capture_noop(&mut unchanged, "other", "expected", "expected", Ok(())).is_err());
    assert!(commit_capture_noop(&mut unchanged, "expected", "expected", "expected", Ok(())).is_ok());
    assert_eq!(unchanged, CAPTURE_COMMITTED);
}

fn position() -> StudioPosition {
    StudioPosition {
        bridge_id: "bridge".to_owned(),
        process_id: 4,
        studio_session_id: "session".to_owned(),
        instance_id: "instance".to_owned(),
        engine_ready: true,
        engine_generation: 1,
        hierarchy_sequence: 2,
        change_sequence: 3,
    }
}

#[test]
fn attestations_notice_what_changed_since_staging() {
    let attestation = CapturePrecommitAttestation { studio: position(), project_generation: "mapped".to_owned() };
    assert!(attestation.validate(&position(), Ok("mapped".to_owned())).is_ok());

    let mut moved = position();
    moved.instance_id = "other".to_owned();
    assert!(matches!(attestation.validate(&moved, Ok("mapped".to_owned())), Err(CommitError::RouteChanged)));
    let mut restarted = position();
    restarted.engine_generation = 2;
    assert!(matches!(attestation.validate(&restarted, Ok("mapped".to_owned())), Err(CommitError::EngineChanged)));
    let mut edited = position();
    edited.change_sequence = 4;
    assert!(matches!(attestation.validate(&edited, Ok("mapped".to_owned())), Err(CommitError::StudioChanged)));
    assert!(matches!(
        attestation.validate(&position(), Ok("other".to_owned())),
        Err(CommitError::RealizationChanged)
    ));
    assert!(matches!(attestation.validate(&position(), Err("gone".to_owned())), Err(CommitError::Other(_))));
}

#[test]
fn failed_writes_stop_the_processor_unless_the_tree_is_restored() {
    let kept = conclude_write(Ok(None), Ok("same".to_owned()), true);
    assert!(kept.continues);
    let stopped = conclude_write(Err("broken".to_owned()), Ok("same".to_owned()), false);
    assert!(!stopped.continues);
    assert!(stopped.result.is_err());
}

fn digest(bytes: &[u8]) -> (u128, u128) {
    let hash = blake3::hash(bytes);
    let (high, low) = hash.as_bytes().split_at(16);
    (u128::from_be_bytes(high.try_into().unwrap()), u128::from_be_bytes(low.try_into().unwrap()))
}

#[test]
fn reload_signal_state_signals_valid_manifest_changes_and_coalesces_duplicates() {
    let mut state = ReloadSignalState::new();
    let hash1 = digest(b"{\"name\":\"Game1\"}");
    let hash2 = digest(b"{\"name\":\"Game2\"}");

    assert!(state.should_signal_manifest(hash1));
    assert!(!state.should_signal_manifest(hash1));

    assert!(state.should_signal_manifest(hash2));
    assert!(!state.should_signal_manifest(hash2));
}

fn checked(state: &ReloadSignalState, document: &[u8], frozen: &[u8]) -> ManifestReadResult {
    match state.check_manifest(Ok(document.to_vec()), frozen) {
        ManifestCheck::Done(result) => result,
        ManifestCheck::ReadAgain(_) => state.recheck_manifest(document.to_vec(), Some(document.to_vec()), frozen),
    }
}

#[test]
fn reload_signal_state_ignores_malformed_json_without_signaling() {
    let frozen = b"{\"name\":\"Game\"}";
    let state = ReloadSignalState::new();
    assert!(matches!(checked(&state, b"{\"name\":\"Game\"}", frozen), ManifestReadResult::Unchanged));
    assert!(matches!(checked(&state, b"{\"name\":", frozen), ManifestReadResult::InvalidJson(_)));
    let changed = checked(&state, b"{\"name\":\"Updated\"}", frozen);
    assert!(matches!(changed, ManifestReadResult::ValidChanged { .. }));
    match changed {
        ManifestReadResult::ValidChanged { hash } => assert_eq!(hash, digest(b"{\"name\":\"Updated\"}")),
        _ => unreachable!(),
    }
}

#[test]
fn reload_signal_state_signals_watch_roots_and_coalesces_duplicates() {
    let mut state = ReloadSignalState::new();
    let roots1 = path(&["/a", "/b"]);
    let roots2 = path(&["/a", "/c"]);

    assert!(state.should_signal_watch_roots(&roots1));
    assert!(!state.should_signal_watch_roots(&roots1));

    assert!(state.should_signal_watch_roots(&roots2));
    assert!(!state.should_signal_watch_roots(&roots2));
}

/// Follows a stable read over what the file holds at each read and what comes between
/// the reads.
fn follow(mut events: Vec<StableEvent>, mut reads: Vec<Result<String, String>>) -> Result<String, String> {
    let mut state = StableRead::Quiet;
    let mut last = Err("never read".to_owned());
    let mut event = events.remove(0);
    loop {
        let (next, action) = coalesce_stable_read(state, event);
        state = next;
        event = match action {
            StableAction::AwaitQuiet | StableAction::AwaitStability => events.remove(0),
            StableAction::Read => {
                last = reads.remove(0);
                StableEvent::Read { found: last.clone(), expired: false }
            }
            StableAction::Accept => return last,
            StableAction::Stop => return Err("stopped".to_owned()),
            StableAction::Fail(text) => return Err(text),
        };
    }
}

#[test]
fn truncate_and_partial_notifications_coalesce_to_the_final_script_source() {
    let result = follow(
        vec![StableEvent::Signal, StableEvent::Signal, StableEvent::Timeout, StableEvent::Timeout],
        vec![Ok("return 'final'".to_owned()), Ok("return 'final'".to_owned())],
    );
    assert_eq!(result.unwrap(), "return 'final'");

    let interrupted = follow(
        vec![StableEvent::Timeout, StableEvent::Signal, StableEvent::Timeout, StableEvent::Timeout],
        vec![Ok("partial".to_owned()), Ok("return 'final'".to_owned()), Ok("return 'final'".to_owned())],
    );
    assert_eq!(interrupted.unwrap(), "return 'final'");
}

#[test]
fn transient_invalid_utf8_state_waits_for_the_final_valid_source() {
    let result = follow(
        vec![
            StableEvent::Timeout,
            StableEvent::Timeout,
            StableEvent::Timeout,
            StableEvent::Timeout,
            StableEvent::Timeout,
            StableEvent::Timeout,
        ],
        vec![
            Err("Script source is not valid UTF-8".to_owned()),
            Ok("return 42".to_owned()),
            Ok("return 42".to_owned()),
            Ok("return 42".to_owned()),
        ],
    );
    assert_eq!(result.unwrap(), "return 42");
}

#[test]
fn a_watcher_that_is_gone_stops_the_read() {
    assert_eq!(follow(vec![StableEvent::Disconnected], vec![]), Err("stopped".to_owned()));
}

#[test]
fn stale_script_signal_after_non_script_generation_change_is_a_baseline_only_noop() {
    let path = "/tmp/unchanged-script.luau";
    let bytes = b"return 'unchanged'".to_vec();
    let scripts = || {
        let mut scripts = TextMap::new();
        scripts.insert(path.to_owned(), bytes.clone());
        scripts
    };
    let previous = CanonicalSourceSnapshot {
        generation: "generation-before-property-syncback".to_owned(),
        scripts: scripts(),
    };
    let current = CanonicalSourceSnapshot {
        generation: "generation-after-property-syncback".to_owned(),
        scripts: scripts(),
    };
    let mut sources = TextMap::new();
    sources.insert(path.to_owned(), 7_u128);

    let candidate = script_source_candidate_from_snapshot(current, &previous, &sources).unwrap();
    assert!(candidate.changes.is_empty(), "stale script notification must emit no SyncChanges");
    assert_eq!(candidate.snapshot.generation, "generation-after-property-syncback");
}

fn route(session: &str, instance: &str, bridge: &str) -> StudioRoute {
    StudioRoute {
        studio_session_id: session.to_owned(),
        instance_id: instance.to_owned(),
        bridge_id: Some(bridge.to_owned()),
        manifest_identities_authoritative: false,
    }
}

#[test]
fn studio_route_is_replaced_only_after_the_client_disconnects() {
    let mut queue = Queue::new();
    let first = route("plugin-session-a", "place:123", "0123456789abcdef0123456789abcdef");
    let second = route("plugin-session-b", "place:123", "fedcba9876543210fedcba9876543210");

    queue.subscribe(101, "same-place", Some(first.clone())).unwrap();
    assert_eq!(queue.studio_route(101), Some(first));
    assert!(queue.subscribe(202, "same-place", Some(second.clone())).is_err());

    queue.unsubscribe(101).unwrap();
    queue.subscribe(202, "same-place", Some(second.clone())).unwrap();
    assert_eq!(queue.studio_route(101), None);
    assert_eq!(queue.studio_route(202), Some(second));
}

#[test]
fn capability_negotiation_binds_only_the_calling_studio_route() {
    let mut queue = Queue::new();
    let unbound = StudioRoute {
        studio_session_id: "plugin-session-a".to_owned(),
        instance_id: "anon:place-a".to_owned(),
        bridge_id: None,
        manifest_identities_authoritative: false,
    };
    queue.subscribe(101, "place-a", Some(unbound)).unwrap();

    queue.bind_studio_bridge(101, "0123456789abcdef0123456789abcdef").unwrap();

    assert_eq!(
        queue.studio_route(101).and_then(|route| route.bridge_id),
        Some("0123456789abcdef0123456789abcdef".to_owned())
    );
    assert!(!queue.studio_route(101).unwrap().manifest_identities_authoritative);
    queue.mark_manifest_identities_authoritative(101).unwrap();
    assert!(queue.studio_route(101).unwrap().manifest_identities_authoritative);
    queue.set_manifest_identities_authoritative(101, false).unwrap();
    assert!(!queue.studio_route(101).unwrap().manifest_identities_authoritative);
}

#[test]
fn only_one_studio_client_may_subscribe() {
    let mut queue = Queue::new();
    queue.subscribe(101, "first", None).unwrap();
    let error = queue.subscribe(202, "second", None).unwrap_err().message();
    assert!(error.contains("another Studio client"));
    queue.unsubscribe(101).unwrap();
    queue.subscribe(202, "second", None).unwrap();
    assert_eq!(queue.single_listener_id().unwrap(), 202);
}

#[test]
fn first_successful_subscription_reports_connection_once() {
    let mut queue = Queue::new();
    queue.on_first_subscribe();
    let mut connections = Vec::new();
    if queue
        .subscribe(101, "first", Some(route("studio-session", "anon:first", "bridge")))
        .unwrap()
    {
        connections.push((
            queue.get_first_non_internal_listener_name().unwrap(),
            queue.studio_route(101).map(|route| route.instance_id),
        ));
    }
    queue.unsubscribe(101).unwrap();
    if queue.subscribe(202, "second", None).unwrap() {
        connections.push(("second".to_owned(), None));
    }
    assert_eq!(connections, [("first".to_owned(), Some("anon:first".to_owned()))]);
}

#[test]
fn messages_that_nobody_gets_are_counted() {
    let mut queue = Queue::new();
    assert_eq!(queue.push(None).unwrap_or(None), None);
    assert_eq!(queue.unsynced_changes(), 1);
    assert!(!queue.warns(0));
    assert!(queue.warns(1));
    assert!(!queue.warns(5));
    queue.subscribe(3, "client", None).unwrap();
    assert_eq!(queue.push(None).unwrap(), Some(3));
    assert!(queue.push(Some(4)).is_err());
    assert!(queue.unsubscribe(4).is_err());
    assert!(queue.bind_studio_bridge(3, "bridge").is_err());
}

fn request(join_active: bool) -> CaptureRequest {
    CaptureRequest {
        served_project: true,
        restart_required: false,
        pending_reload: None,
        supplied_reload: None,
        client: Ok(7),
        has_route: true,
        source_generation: "generation".to_owned(),
        request_id: "request".to_owned(),
        served_place: Some("place.rbxl".to_owned()),
        join_active,
    }
}

#[test]
fn captures_begin_once_and_are_cancelled_before_they_commit() {
    let mut current = None;
    let begun = begin_manifest_capture(&mut current, request(false)).unwrap();
    assert!(begun.started);
    assert_eq!(begun.status.request_id, "request");
    assert_eq!(begun.client_id, 7);
    assert!(matches!(begin_manifest_capture(&mut current, request(false)), Err(CaptureError::OtherCapture)));
    let joined = begin_manifest_capture(&mut current, request(true)).unwrap();
    assert!(!joined.started);

    assert!(matches!(status_of_request(&mut current, "other", true), Err(CaptureError::NotFound)));
    let cancelled = cancel_manifest_capture(&mut current, "request").unwrap();
    assert_eq!(cancelled.state, "failed");

    let mut unserved = request(false);
    unserved.served_project = false;
    assert!(matches!(begin_manifest_capture(&mut None, unserved), Err(CaptureError::NoServedProject)));
    let mut reloading = request(false);
    reloading.pending_reload = Some("reload".to_owned());
    assert!(matches!(begin_manifest_capture(&mut None, reloading), Err(CaptureError::ReloadPending)));
    let mut alone = request(false);
    alone.has_route = false;
    assert!(matches!(begin_manifest_capture(&mut None, alone), Err(CaptureError::NoRoute)));
}

#[test]
fn reload_transitions_begin_and_end_once() {
    let mut pending = None;
    assert!(begin_managed_reload_transition(false, &mut pending, "reload".to_owned()).is_err());
    assert!(begin_managed_reload_transition(true, &mut pending, String::new()).is_err());
    begin_managed_reload_transition(true, &mut pending, "reload".to_owned()).unwrap();
    assert!(begin_managed_reload_transition(true, &mut pending, "again".to_owned()).is_err());
    assert!(complete_managed_reload_transition(&mut pending, "other").is_err());
    complete_managed_reload_transition(&mut pending, "reload").unwrap();
    assert_eq!(pending, None);
}

#[test]
fn capture_runs_check_the_source_before_they_commit() {
    let mut current = None;
    begin_manifest_capture(&mut current, request(false)).unwrap();
    let mut run = CaptureRun::new("request".to_owned(), "generation".to_owned());
    let started = CaptureEvent::Started { worktree: true, policy: true, snapshot: true };
    assert_eq!(run.advance(&mut current, started).unwrap(), CaptureAction::AwaitRecovery);
    let mut phase = current.as_ref().unwrap().phase;
    claim_capture_recovery(&mut phase).unwrap();
    current.as_mut().unwrap().phase = phase;
    let recovered = CaptureEvent::Recovered {
        kind: "autosave".to_owned(),
        path: "place.rbxl".to_owned(),
        studio_generation: Some("studio".to_owned()),
    };
    assert_eq!(run.advance(&mut current, recovered).unwrap(), CaptureAction::AwaitSynchronization);
    let moved = CaptureEvent::Synchronized {
        project_generation: "mapped".to_owned(),
        source_generation: "other".to_owned(),
    };
    assert!(matches!(run.advance(&mut current, moved), Err(CaptureError::SourceChanged)));

    let synchronized = CaptureEvent::Synchronized {
        project_generation: "mapped".to_owned(),
        source_generation: "generation".to_owned(),
    };
    assert_eq!(run.advance(&mut current, synchronized).unwrap(), CaptureAction::Stage);
    let staged = CaptureEvent::Staged { project_generation: "mapped".to_owned() };
    assert_eq!(run.advance(&mut current, staged).unwrap(), CaptureAction::Commit);
    let mut last = None;
    let mut studio = StudioChangeState::new();
    assert!(matches!(run.finish(&mut current, &mut last, &mut studio), Err(CaptureError::OutOfOrder)));
    let committed = CaptureEvent::Committed { generation: "next".to_owned() };
    assert_eq!(run.advance(&mut current, committed).unwrap(), CaptureAction::Install);
    assert_eq!(current.as_ref().unwrap().state, "running");
    assert_eq!(last, None);
    let mut gone = None;
    assert!(matches!(run.finish(&mut gone, &mut last, &mut studio), Err(CaptureError::DisappearedAfterCommit)));
    run.finish(&mut current, &mut last, &mut studio).unwrap();
    assert_eq!(last.as_deref(), Some("next"));
    assert_eq!(studio.last_captured_generation.as_deref(), Some("studio"));
    let operation = current.unwrap();
    assert_eq!(operation.state, "complete");
    assert_eq!(operation.source_generation, "next");
    assert_eq!(operation.message.as_deref(), Some("autosave place.rbxl was captured and committed atomically"));
}

#[test]
fn automatic_captures_wait_for_a_terminal_status() {
    let status = |state: &str, message: Option<&str>| ManifestCaptureStatus {
        request_id: "request".to_owned(),
        state: state.to_owned(),
        source_generation: "generation".to_owned(),
        message: message.map(str::to_owned),
    };
    assert!(matches!(wait_for_automatic_capture(Ok(status("running", None)), true), AutomaticStep::Wait));
    assert!(matches!(
        wait_for_automatic_capture(Ok(status("complete", Some("done"))), false),
        AutomaticStep::Done(text) if text == "done"
    ));
    assert!(matches!(
        wait_for_automatic_capture(Ok(status("failed", Some("broken"))), false),
        AutomaticStep::Failed(_)
    ));
    match wait_for_automatic_capture(Err("refused".to_owned()), true) {
        AutomaticStep::Failed(error) => assert_eq!(
            error.message(),
            "failed to start automatic Capture Manifest before transition: refused"
        ),
        _ => panic!("a capture that cannot start has failed"),
    }
    assert!(status("strange", None).terminal_result().is_err());
}

#[test]
fn only_changed_studio_state_is_transient() {
    assert!(is_transient_manifest_capture_error(
        "context: Studio changed during Capture Manifest staging; retry the capture"
    ));
    assert!(!is_transient_manifest_capture_error("another error"));
}

#[test]
fn a_disconnected_studio_retains_a_valid_manifest() {
    let kept = retained_after_disconnection(false, "no client".to_owned(), true, "/game/state.carbon");
    assert!(kept.is_ok());
    let lost = retained_after_disconnection(false, "no client".to_owned(), false, "/game/state.carbon");
    assert!(lost.is_err());
}

#[test]
fn studio_probes_end_with_the_generation_that_studio_reports() {
    let mut state = StudioChangeState::new();
    state.begin_probe("probe".to_owned()).unwrap();
    assert!(state.begin_probe("second".to_owned()).is_err());
    assert!(matches!(state.poll_probe("probe", false), Ok(ProbeStep::Wait)));
    assert!(state.acknowledge_studio_change_generation(true, "other", "generation".to_owned()).is_err());
    assert!(state.acknowledge_studio_change_generation(false, "probe", "generation".to_owned()).is_err());
    state.acknowledge_studio_change_generation(true, "probe", "generation".to_owned()).unwrap();
    match state.poll_probe("probe", false) {
        Ok(ProbeStep::Done(generation)) => assert_eq!(generation, Some("generation".to_owned())),
        _ => panic!("an acknowledged probe is done"),
    }
}

#[test]
fn shutdown_captures_run_once_and_errors_can_be_tried_again() {
    let mut coordinator = ShutdownCoordinator::new();
    assert!(matches!(coordinator.enter(), ShutdownEntry::Run));
    assert!(matches!(coordinator.enter(), ShutdownEntry::Wait));
    coordinator.finish(Err("broken".to_owned()));
    assert!(matches!(coordinator.enter(), ShutdownEntry::Done(Err(text)) if text == "broken"));
    coordinator.reset_error();
    assert!(matches!(coordinator.enter(), ShutdownEntry::Run));
    coordinator.finish(Ok("captured".to_owned()));
    coordinator.reset_error();
    assert!(matches!(coordinator.enter(), ShutdownEntry::Done(Ok(text)) if text == "captured"));
}

#[test]
fn spools_give_their_pages_back() {
    let mut spool = page_frame(b"first");
    assert_eq!(&spool[..4], &[5, 0, 0, 0]);
    spool.extend(page_frame(b""));
    spool.extend(page_frame(b"third"));
    assert_eq!(spool_pages(&spool).unwrap(), vec![b"first".to_vec(), Vec::new(), b"third".to_vec()]);
    spool.pop();
    assert!(spool_pages(&spool).is_err());
}

#[test]
fn programs_collect_their_arguments() {
    let mut program = Program::new(ProgramName::Carbon);
    program.arg("build".to_owned()).args(&path(&["--output", "game.rbxl"]));
    assert_eq!(program.args, path(&["build", "--output", "game.rbxl"]));
    assert!(verify(true).is_ok());
    assert!(verify(false).is_ok());
}
