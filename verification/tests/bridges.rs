use carbon::bridge::{
    discover_studio, discovery_claims_studio, is_loaded_bridge, is_ready_bridge, match_studio, owns_record,
    parse_loopback_port, retry_exact_bridge_discovery, studio_route_key, validate_bridge_id, validate_discovery,
    wait_for_active, Capabilities, Discovery, DiscoveryError, DiscoveryStep, ProbedBridge, StudioIdentity, StudioStep,
};
use carbon::bridge_records::{choose_record, is_record_file, order_paths, order_records, RecordFile};
use carbon::bridge_frames::{
    build_stdin_payload, check_range_response, check_response, encode_request_path, normalize_request_path,
    parse_helper_stdout, parse_u64, range_end, range_header, request_url,
};

const BUILD: &str = "1.2.3+worktree";

fn discovery_and_capabilities(engine_ready: bool, engine_generation: u64) -> (Discovery, Capabilities) {
    let bridge_id = "0123456789abcdef0123456789abcdef".to_owned();
    (
        Discovery {
            protocol_version: 2,
            rml_build_version: BUILD.to_owned(),
            bridge_id: bridge_id.clone(),
            endpoint: "http://127.0.0.1:1/".to_owned(),
            token: "secret".to_owned(),
            process_id: 42,
            studio_session_id: None,
            instance_id: None,
        },
        Capabilities { bridge_id, process_id: 42, engine_ready, engine_generation },
    )
}

/// What a helper prints: the mark, the status, the declared length, the length of the
/// range, the range and the body.
fn make_helper_stdout(status: u32, content_length: Option<u64>, content_range: Option<&str>, body: &[u8]) -> Vec<u8> {
    let mut stdout = b"CBRS0001".to_vec();
    stdout.extend(status.to_le_bytes());
    stdout.extend(content_length.unwrap_or(u64::MAX).to_le_bytes());
    let range = content_range.unwrap_or_default().as_bytes();
    stdout.extend((range.len() as u32).to_le_bytes());
    stdout.extend(range);
    stdout.extend(body);
    stdout
}

#[test]
fn exact_discovery_retries_a_transient_record_replacement() {
    let mut attempts = 0;
    let mut waits = 0;
    let result = loop {
        attempts += 1;
        let found = if attempts < 3 { Err(DiscoveryError::Missing("gone".to_owned())) } else { Ok("bridge") };
        match retry_exact_bridge_discovery(found, attempts) {
            DiscoveryStep::Done(found) => break found,
            DiscoveryStep::Wait(_) => waits += 1,
            DiscoveryStep::Failed(_) => panic!("a record that is replaced is looked for again"),
        }
    };

    assert_eq!(result, "bridge");
    assert_eq!(attempts, 3);
    assert_eq!(waits, 2);
}

#[test]
fn exact_discovery_does_not_retry_an_invalid_record() {
    let mut attempts = 0;
    let mut waits = 0;
    let error = loop {
        attempts += 1;
        let found: Result<(), DiscoveryError> = Err(DiscoveryError::Other("invalid discovery record".to_owned()));
        match retry_exact_bridge_discovery(found, attempts) {
            DiscoveryStep::Done(_) => panic!("an invalid record was found"),
            DiscoveryStep::Wait(_) => waits += 1,
            DiscoveryStep::Failed(error) => break error,
        }
    };

    assert!(matches!(error, DiscoveryError::Other(text) if text == "invalid discovery record"));
    assert_eq!(attempts, 1);
    assert_eq!(waits, 0);
}

#[test]
fn discovery_of_a_missing_record_is_bounded() {
    let missing = || Err::<(), DiscoveryError>(DiscoveryError::Missing("gone".to_owned()));
    assert!(matches!(retry_exact_bridge_discovery(missing(), 4), DiscoveryStep::Wait(_)));
    assert!(matches!(retry_exact_bridge_discovery(missing(), 5), DiscoveryStep::Failed(_)));
}

#[test]
fn discovery_rejects_non_loopback_endpoint() {
    let (mut parsed, _) = discovery_and_capabilities(true, 3);
    parsed.endpoint = "http://example.com/".to_owned();
    assert!(!parsed.endpoint.starts_with("http://127.0.0.1:"));
    assert!(validate_discovery(&parsed, &None, BUILD).is_err());
    assert_eq!(parse_loopback_port("http://127.0.0.1:8080/").unwrap(), 8080);
    assert!(parse_loopback_port("http://127.0.0.1/").is_err());
    assert!(parse_loopback_port("https://127.0.0.1:8080/").is_err());
    assert!(parse_loopback_port("not a url").is_err());
}

#[test]
fn discovery_rejects_the_pre_guid_bridge_protocol_before_connecting() {
    let (mut old, _) = discovery_and_capabilities(true, 3);
    old.protocol_version = 1;
    let error = validate_discovery(&old, &None, BUILD).unwrap_err().message();
    assert!(error.contains("unsupported RML Carbon bridge protocol"), "{error}");
}

#[test]
fn discovery_rejects_a_different_native_rml_build_before_connecting() {
    let (mut other, _) = discovery_and_capabilities(true, 3);
    other.rml_build_version = "0.0.0+different-worktree".to_owned();
    let error = validate_discovery(&other, &None, BUILD).unwrap_err().message();
    assert!(error.contains("RML bridge build mismatch"), "{error}");
}

#[test]
fn discovery_accepts_the_exact_bridge_only() {
    let (discovery, _) = discovery_and_capabilities(true, 3);
    assert_eq!(validate_discovery(&discovery, &None, BUILD).unwrap(), 1);
    assert_eq!(validate_discovery(&discovery, &Some(discovery.bridge_id.clone()), BUILD).unwrap(), 1);
    assert!(validate_discovery(&discovery, &Some("f".repeat(32)), BUILD).is_err());
    let (mut unnamed, _) = discovery_and_capabilities(true, 3);
    unnamed.token = String::new();
    assert!(validate_discovery(&unnamed, &None, BUILD).is_err());
}

#[test]
fn discovery_route_claim_requires_both_exact_identities() {
    let (mut discovery, _) = discovery_and_capabilities(true, 3);
    discovery.studio_session_id = Some("studio-session".to_owned());
    discovery.instance_id = Some("studio-instance".to_owned());

    assert!(discovery_claims_studio(&discovery, "studio-session", "studio-instance"));
    assert!(!discovery_claims_studio(&discovery, "other-session", "studio-instance"));
    assert!(!discovery_claims_studio(&discovery, "studio-session", "other-instance"));
}

#[test]
fn studio_route_key_matches_the_bridge_index_contract() {
    assert_eq!(studio_route_key("studio-session", "studio-instance"), "fc03bbceded1831a");
    assert_ne!(
        studio_route_key("studio-session", "studio-instance"),
        studio_route_key("studio-session", "other-instance")
    );
}

#[test]
fn bridge_ids_are_path_safe_and_fixed_width() {
    assert!(validate_bridge_id("0123456789abcdef0123456789abcdef").is_ok());
    assert!(validate_bridge_id("../carbon-bridge").is_err());
    assert!(validate_bridge_id("0123456789abcdef").is_err());
}

#[test]
fn discovery_waits_until_the_exact_process_has_an_attached_engine_generation() {
    let (discovery, mut capabilities) = discovery_and_capabilities(false, 0);
    assert!(!is_ready_bridge(&discovery, &capabilities, Some(42)));
    assert!(is_loaded_bridge(&discovery, &capabilities, Some(42)));
    assert!(!is_loaded_bridge(&discovery, &capabilities, Some(7)));
    capabilities.engine_ready = true;
    assert!(!is_ready_bridge(&discovery, &capabilities, Some(42)));
    capabilities.engine_generation = 1;
    assert!(is_ready_bridge(&discovery, &capabilities, Some(42)));
    assert!(!is_ready_bridge(&discovery, &capabilities, Some(7)));
}

#[test]
fn only_the_exited_process_loses_its_records() {
    let (exited, _) = discovery_and_capabilities(true, 3);
    let (mut open, _) = discovery_and_capabilities(true, 3);
    open.bridge_id = "fedcba9876543210fedcba9876543210".to_owned();
    open.process_id = 43;
    let (mut reused, _) = discovery_and_capabilities(true, 3);
    reused.bridge_id = open.bridge_id.clone();
    let bridge_id = exited.bridge_id.clone();
    assert!(owns_record(&Some(exited), 42, &bridge_id));
    assert!(!owns_record(&Some(open), 42, &bridge_id));
    assert!(!owns_record(&Some(reused), 42, &bridge_id));
    assert!(!owns_record(&None, 42, &bridge_id));
}

#[test]
fn helper_transport_frames_the_bearer_token() {
    assert_eq!(build_stdin_payload("secret", b""), b"CBRQ0001\x06\x00\x00\x00secret");
    assert_eq!(encode_request_path("v1/capabilities").unwrap(), "L3YxL2NhcGFiaWxpdGllcw==");
    let response = parse_helper_stdout(&make_helper_stdout(200, Some(2), None, b"{}"), 42).unwrap();
    assert_eq!((response.status, response.body.as_slice()), (200, b"{}".as_slice()));
    assert!(check_response(&response, "v1/capabilities").is_ok());
}

#[test]
fn helper_framing_failure_invalid_magic() {
    let raw_stdout = b"CBRX0001\x00\x00\x00\x00\x00\x00\x00\x00\x00\x00\x00\x00\x00\x00\x00\x00".to_vec();
    let err = parse_helper_stdout(&raw_stdout, 42).unwrap_err();
    assert!(err.message().contains("invalid framing magic"));
}

#[test]
fn helper_framing_failure_truncated_header() {
    let err = parse_helper_stdout(b"CBRS0001short", 42).unwrap_err();
    assert!(err.message().contains("failed to return framing header"));
}

#[test]
fn helper_status_failure_returns_error_detail() {
    let response = parse_helper_stdout(&make_helper_stdout(500, None, None, b"internal server error"), 42).unwrap();
    let err = check_response(&response, "v1/capabilities").unwrap_err();
    assert!(err.message().contains("500: internal server error"));
}

#[test]
fn helper_header_failure_missing_content_range_for_range_request() {
    let response = parse_helper_stdout(&make_helper_stdout(206, Some(10), None, b"0123456789"), 42).unwrap();
    let err = check_range_response(
        response.status,
        &response.content_range,
        response.body.len() as u64,
        0,
        10,
        "v1/artifact",
        String::new(),
    )
    .unwrap_err();
    assert!(err.message().contains("no Content-Range header"));
}

#[test]
fn helper_truncation_failure_content_length_mismatch() {
    let raw_stdout = make_helper_stdout(200, Some(100), None, b"short");
    let err = match parse_helper_stdout(&raw_stdout, 42) {
        Err(error) => error,
        Ok(response) => check_response(&response, "v1/capabilities").unwrap_err(),
    };
    assert!(err.message().contains("RML bridge artifact length mismatch: declared 100, received 5"));
}

#[test]
fn ranges_are_exact() {
    assert_eq!(range_end(5, 0).unwrap(), None);
    assert_eq!(range_end(5, 10).unwrap(), Some(14));
    assert!(range_end(u64::MAX, 2).is_err());
    assert_eq!(range_header(5, 14), "bytes=5-14");
    let range = Some("bytes 5-14/100".to_owned());
    assert!(check_range_response(206, &range, 10, 5, 10, "v1/artifact", String::new()).is_ok());
    assert!(check_range_response(206, &range, 9, 5, 10, "v1/artifact", String::new()).is_err());
    assert!(check_range_response(200, &range, 10, 5, 10, "v1/artifact", String::new()).is_err());
    let other = Some("bytes 6-15/100".to_owned());
    assert!(check_range_response(206, &other, 10, 5, 10, "v1/artifact", String::new()).is_err());
    assert_eq!(parse_u64("18446744073709551615"), Some(u64::MAX));
    assert_eq!(parse_u64("18446744073709551616"), None);
    assert_eq!(parse_u64("1x"), None);
}

#[test]
fn request_paths_are_absolute_and_stay_inside() {
    assert_eq!(normalize_request_path("v1/capabilities").unwrap(), "/v1/capabilities");
    assert_eq!(normalize_request_path("/v1/capabilities").unwrap(), "/v1/capabilities");
    assert_eq!(request_url("http://127.0.0.1:1/", "/v1/capabilities"), "http://127.0.0.1:1/v1/capabilities");
}

fn probe(bridge_id: &str, session: &str) -> ProbedBridge {
    ProbedBridge {
        bridge_id: bridge_id.to_owned(),
        process_id: 42,
        identity: StudioIdentity {
            studio_session_id: session.to_owned(),
            instance_id: "instance".to_owned(),
            bridge_id: bridge_id.to_owned(),
            process_id: 42,
        },
    }
}

#[test]
fn studio_is_the_one_bridge_that_answers_for_it() {
    let probes = vec![probe("a", "session"), probe("b", "other")];
    assert_eq!(match_studio(&probes, "session", "instance").unwrap(), Some("a".to_owned()));
    assert_eq!(match_studio(&probes, "missing", "instance").unwrap(), None);
    let twice = vec![probe("a", "session"), probe("b", "session")];
    assert!(match_studio(&twice, "session", "instance").is_err());
    assert!(matches!(discover_studio(&probes, "session", "instance", 1), StudioStep::Discover(id) if id == "a"));
    assert!(matches!(discover_studio(&probes, "missing", "instance", 1), StudioStep::Wait(_)));
}

#[test]
fn a_new_bridge_is_waited_for() {
    let active = vec!["a".to_owned(), "b".to_owned()];
    assert!(matches!(
        wait_for_active(&active, &vec!["a".to_owned()], false),
        StudioStep::Discover(id) if id == "b"
    ));
    assert!(matches!(wait_for_active(&vec!["a".to_owned()], &vec!["a".to_owned()], false), StudioStep::Wait(_)));
    assert!(matches!(wait_for_active(&vec![], &vec![], true), StudioStep::Failed(_)));
}

fn record(path: &str, modified: u64) -> RecordFile {
    RecordFile { path: path.to_owned(), modified }
}

#[test]
fn records_are_tried_newest_first() {
    assert!(is_record_file("0123456789abcdef0123456789abcdef.json"));
    assert!(!is_record_file(".json"));
    assert!(!is_record_file("record.txt"));
    let ordered = order_records(vec![record("/a", 1), record("/b", 3), record("/c", 3), record("/c", 3), record("/d", 2)]);
    assert_eq!(ordered, vec!["/b".to_owned(), "/c".to_owned(), "/d".to_owned(), "/a".to_owned()]);
}

#[test]
fn record_paths_are_ordered_by_component() {
    let path = |parts: &[&str]| parts.iter().map(|part| part.to_string()).collect::<Vec<String>>();
    let ordered = order_paths(vec![
        path(&["/", "a-b", "x.json"]),
        path(&["/", "a", "y.json"]),
        path(&["/", "a", "x.json"]),
        path(&["/", "a", "y.json"]),
    ]);
    assert_eq!(
        ordered,
        vec![path(&["/", "a", "x.json"]), path(&["/", "a", "y.json"]), path(&["/", "a-b", "x.json"])]
    );
}

#[test]
fn a_record_is_taken_from_this_user_first() {
    let others = || Some(vec![record("/mnt/one.json", 5), record("/mnt/two.json", 9), record("/mnt/three.json", 9)]);
    assert_eq!(choose_record("/home/own.json", true, &others()), "/home/own.json");
    assert_eq!(choose_record("/home/own.json", false, &others()), "/mnt/three.json");
    assert_eq!(choose_record("/home/own.json", false, &Some(Vec::new())), "/home/own.json");
    assert_eq!(choose_record("/home/own.json", false, &None), "/home/own.json");
}
