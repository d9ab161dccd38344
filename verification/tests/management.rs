use aivpn_server::dns::{block_rules, check_response, DnsProxyConfig};
use aivpn_server::enroll::{answer_len, frame_message, limits_given, peer_accepts};
use aivpn_server::management::{
    audit_tail, check_active_mask, check_backup, check_client_known, check_client_name,
    check_config, check_connection_key, check_delete, check_resource, check_upload,
    config_key_known, count_clients, default_audit_limit, find_client, find_client_for_mask,
    override_file, sort_names, update_failure_status, ApiError, ApiStatus, ClientCounts,
    ClientName, ClientState, Resource, CONFIG_KNOWN_KEYS, MAX_BACKUP_SIZE, MAX_MASK_SIZE,
};
use aivpn_server::mask_repair::{
    exit_code, parse_ndpi, pcap_payloads, structure_counts, RepairEnd, StructureCounts,
    TargetProto,
};
use aivpn_server::validate::{validate_mask, FsmState, MaskFacts};

fn refused<T>(r: Result<T, ApiError>) -> (u16, String) {
    match r {
        Ok(_) => (0, String::new()),
        Err(e) => (e.status.code(), e.message),
    }
}

fn refusal(code: u16, message: &str) -> (u16, String) {
    (code, message.to_string())
}

fn texts(list: &[&str]) -> Vec<String> {
    list.iter().map(|t| t.to_string()).collect()
}

#[test]
fn config_allowlist_contains_bootstrap_publish() {
    assert!(CONFIG_KNOWN_KEYS.contains(&"bootstrap_publish"));
}

#[test]
fn config_allowlist_has_no_duplicates() {
    let mut seen = std::collections::HashSet::new();
    for k in CONFIG_KNOWN_KEYS.iter() {
        assert!(seen.insert(*k), "duplicate key in CONFIG_KNOWN_KEYS: {k}");
    }
}

#[test]
fn settings_are_checked_key_by_key() {
    assert!(check_config(true, &Some(texts(&["listen_addr", "dns"]))).is_ok());
    assert!(check_config(true, &Some(vec![])).is_ok());
    assert_eq!(
        refused(check_config(true, &Some(texts(&["dns", "foo", "bar"])))),
        refusal(400, "invalid config: unknown field 'foo'")
    );
    assert_eq!(
        refused(check_config(true, &None)),
        refusal(400, "invalid config: must be a JSON object")
    );
    assert_eq!(refused(check_config(false, &None)), refusal(404, "config path not configured"));
    assert!(config_key_known("polymorphic") && !config_key_known("Polymorphic"));
}

#[test]
fn statuses_have_their_numbers() {
    let codes: Vec<u16> = [
        ApiStatus::Success,
        ApiStatus::Created,
        ApiStatus::NoContent,
        ApiStatus::BadRequest,
        ApiStatus::NotFound,
        ApiStatus::Conflict,
        ApiStatus::PayloadTooLarge,
        ApiStatus::InternalError,
        ApiStatus::Unavailable,
    ]
    .iter()
    .map(|s| s.code())
    .collect();
    assert_eq!(codes, vec![200, 201, 204, 400, 404, 409, 413, 500, 503]);
}

#[test]
fn client_names_have_a_length() {
    assert!(check_client_name("alice").is_ok());
    assert!(check_client_name(&"x".repeat(64)).is_ok());
    assert_eq!(
        refused(check_client_name(&"x".repeat(65))),
        refusal(400, "name must be 1–64 characters")
    );
    assert!(check_client_name(&"é".repeat(33)).is_err());
    assert!(check_client_name("").is_err());
}

#[test]
fn uploads_stay_in_their_directory() {
    assert_eq!(check_upload(Some("my-mask_1"), 10).ok(), Some("my-mask_1.json".to_string()));
    assert_eq!(check_upload(Some("маска"), 10).ok(), Some("маска.json".to_string()));
    for bad in ["", "../x", "a/b", "a.b", "a b", "a\\b"] {
        assert_eq!(
            refused(check_upload(Some(bad), 10)),
            refusal(400, "name must be 1–64 alphanumeric/dash/underscore chars")
        );
    }
    assert_eq!(refused(check_upload(None, 10)), refusal(400, "query param 'name' required"));
    assert!(check_upload(Some("m"), MAX_MASK_SIZE).is_ok());
    assert_eq!(
        refused(check_upload(Some("m"), MAX_MASK_SIZE + 1)),
        refusal(413, "mask file exceeds 5 MB limit")
    );
    assert_eq!(check_delete("m-1").ok(), Some("m-1.json".to_string()));
    assert_eq!(refused(check_delete("../m")), refusal(400, "invalid mask name"));
    assert_eq!(refused(check_delete("")), refusal(400, "invalid mask name"));
}

#[test]
fn mask_of_a_client_is_noted() {
    assert!(check_active_mask("alice", "zoom").is_ok());
    assert_eq!(
        refused(check_active_mask("", "zoom")),
        refusal(400, "fields 'client' and 'mask' are required")
    );
    assert_eq!(
        refused(check_active_mask("alice", "")),
        refusal(400, "fields 'client' and 'mask' are required")
    );
    assert_eq!(refused(check_active_mask("alice", "a/b")), refusal(400, "invalid mask name"));
    assert_eq!(
        override_file("alice", Some("id-1"), "zoom", false, true).ok(),
        Some("id-1.mask".to_string())
    );
    assert_eq!(
        refused(override_file("alice", None, "zoom", true, true)),
        refusal(404, "client 'alice' not found")
    );
    assert_eq!(
        refused(override_file("alice", Some("id-1"), "zoom", false, false)),
        refusal(404, "mask 'zoom' not found in mask directory or built-in presets")
    );
}

#[test]
fn failures_have_a_status() {
    assert_eq!(update_failure_status("client x not found in db"), ApiStatus::NotFound);
    assert_eq!(update_failure_status("name taken"), ApiStatus::Conflict);
    assert_eq!(update_failure_status("Not Found"), ApiStatus::Conflict);
    assert!(check_backup(MAX_BACKUP_SIZE, true).is_ok());
    assert_eq!(
        refused(check_backup(MAX_BACKUP_SIZE + 1, true)),
        refusal(413, "backup too large (max 50 MB)")
    );
    assert_eq!(refused(check_backup(1, false)), refusal(500, "config path not configured"));
}

#[test]
fn audit_log_shows_its_end() {
    let lines = texts(&["a", "", "b", " \t", "c"]);
    assert_eq!(audit_tail(&lines, 2), texts(&["b", "c"]));
    assert_eq!(audit_tail(&lines, 10), texts(&["a", "b", "c"]));
    assert!(audit_tail(&lines, 0).is_empty());
    let many: Vec<String> = (0..1500).map(|i| format!("{i}")).collect();
    let tail = audit_tail(&many, 5000);
    assert_eq!((tail.len(), tail[0].as_str()), (1000, "500"));
    assert_eq!(default_audit_limit(), 200);
}

#[test]
fn clients_are_counted_and_found() {
    let state = |enabled, has_connected| ClientState { enabled, has_connected };
    assert_eq!(
        count_clients(&vec![state(true, true), state(true, false), state(false, true)]),
        ClientCounts { total: 3, enabled: 2, connected: 2 }
    );
    let client = |id: &str, name: &str| ClientName { id: id.to_string(), name: name.to_string() };
    let clients = vec![client("1", "alice"), client("alice", "bob"), client("3", "carol")];
    assert_eq!(find_client(&clients, "alice"), Some(0));
    assert_eq!(find_client(&clients, "3"), Some(2));
    assert_eq!(find_client(&clients, "dave"), None);
    let clients = vec![client("bob", "alice"), client("2", "bob")];
    assert_eq!(find_client(&clients, "bob"), Some(0));
    assert_eq!(find_client_for_mask(&clients, "bob"), Some(1));
    assert_eq!(find_client_for_mask(&clients, "2"), Some(1));
    assert_eq!(find_client_for_mask(&clients, "3"), None);
}

#[test]
fn missing_things_are_reported() {
    assert!(check_client_known("x", true).is_ok());
    assert_eq!(refused(check_client_known("x", false)), refusal(404, "Client 'x' not found"));
    assert!(check_connection_key(true, true, "x", true).is_ok());
    let unset = "--server-ip or --key-file not configured; cannot build connection key";
    assert_eq!(refused(check_connection_key(false, true, "x", true)), refusal(503, unset));
    assert_eq!(refused(check_connection_key(true, false, "x", false)), refusal(503, unset));
    assert_eq!(
        refused(check_connection_key(true, true, "x", false)),
        refusal(404, "Client 'x' not found")
    );
    assert!(check_resource(Resource::AuditLog, true).is_ok());
    let missing = |resource| refused(check_resource(resource, false));
    assert_eq!(missing(Resource::ConfigPath), refusal(404, "config path not configured"));
    assert_eq!(missing(Resource::AuditLog), refusal(404, "audit log not configured"));
    assert_eq!(
        missing(Resource::Descriptors),
        refusal(503, "bootstrap descriptors not available")
    );
}

#[test]
fn names_are_sorted() {
    let names = texts(&["b", "a", "é", "B", "ab", "a", ""]);
    let mut expected = names.clone();
    expected.sort();
    assert_eq!(sort_names(names), expected);
}

#[test]
fn messages_are_framed_by_their_length() {
    let frame = frame_message(&[7; 300]);
    assert_eq!(&frame[..4], &[44, 1, 0, 0]);
    assert_eq!(&frame[4..], &[7; 300]);
    assert_eq!(answer_len(&[44, 1, 0, 0]), 300);
    assert_eq!(answer_len(&[255; 4]), 1_048_576);
    assert!(peer_accepts(Some("ok")) && !peer_accepts(Some("error")) && !peer_accepts(None));
    assert!(limits_given(false, false, false, true) && !limits_given(false, false, false, false));
}

#[test]
fn resolvers_are_asked_in_turn() {
    let both = DnsProxyConfig {
        upstream_doh: "https://a/dns".to_string(),
        fallback_doh: Some("https://b/dns".to_string()),
        block_plain_dns: true,
    };
    assert_eq!(both.resolver(0), Some("https://a/dns"));
    assert_eq!(both.resolver(1), Some("https://b/dns"));
    assert_eq!(both.resolver(2), None);
    let one = DnsProxyConfig { fallback_doh: None, ..both };
    assert_eq!(one.resolver(1), None);
    assert!(check_response(true, "200 OK", 65535).is_ok());
    assert_eq!(check_response(false, "503 X", 1), Err("DoH HTTP 503 X".to_string()));
    assert_eq!(
        check_response(true, "200 OK", 65536),
        Err("DoH response too large: 65536 bytes (max 65535)".to_string())
    );
    assert_eq!(
        block_rules("tun0"),
        vec![
            "add rule inet filter forward oifname != \"tun0\" udp dport 53 drop".to_string(),
            "add rule inet filter forward oifname != \"tun0\" tcp dport 53 drop".to_string(),
        ]
    );
}

#[test]
fn classifier_names_a_protocol() {
    assert_eq!(
        parse_ndpi("1 UDP 10.0.0.1 [proto: 78/STUN][cat: Network]"),
        ("STUN".to_string(), false)
    );
    assert_eq!(
        parse_ndpi("[proto: 91.188/ QUIC.YouTube ] risk: Obfuscated traffic"),
        ("QUIC.YouTube".to_string(), true)
    );
    assert_eq!(parse_ndpi("[proto: 1/A/B] [proto: 2/C]"), ("A".to_string(), false));
    assert_eq!(parse_ndpi("[proto: 159] wireguard"), ("Unknown".to_string(), true));
    assert_eq!(parse_ndpi("nothing here"), ("Unknown".to_string(), false));
    assert_eq!(parse_ndpi("[proto: 7/Open"), ("Open".to_string(), false));
    assert!(parse_ndpi("Anonymous Subscriber").1);
}

fn capture(frames: &[Vec<u8>]) -> Vec<u8> {
    let mut bytes = vec![0u8; 24];
    for frame in frames {
        bytes.extend_from_slice(&[0; 8]);
        bytes.extend_from_slice(&(frame.len() as u32).to_le_bytes());
        bytes.extend_from_slice(&(frame.len() as u32).to_le_bytes());
        bytes.extend_from_slice(frame);
    }
    bytes
}

#[test]
fn payloads_are_read_from_a_capture() {
    let mut long = vec![0u8; 42];
    long.extend_from_slice(b"payload");
    let bytes = capture(&[long.clone(), vec![0; 42], long.clone()]);
    assert_eq!(pcap_payloads(&bytes), vec![b"payload".to_vec(); 2]);
    assert_eq!(pcap_payloads(&bytes[..bytes.len() - 1]), vec![b"payload".to_vec()]);
    assert!(pcap_payloads(&bytes[..20]).is_empty());
    assert!(pcap_payloads(&[]).is_empty());
}

#[test]
fn structure_of_payloads_is_counted() {
    let mut stun = vec![0x00, 0x01, 0x00, 0x04, 0x21, 0x12, 0xA4, 0x42];
    stun.resize(24, 0);
    let mut longer = stun.clone();
    longer.push(0);
    let payloads = vec![stun, longer, vec![0xC3, 0, 0, 0, 1], vec![]];
    assert!(
        structure_counts(&payloads, TargetProto::Stun)
            == StructureCounts { total: 4, first: 2, second: 2, third: 1 }
    );
    assert!(
        structure_counts(&payloads, TargetProto::Quic)
            == StructureCounts { total: 4, first: 1, second: 1, third: 0 }
    );
    assert_eq!(exit_code(RepairEnd::Converged), 0);
    assert_eq!(exit_code(RepairEnd::NotConverged), 1);
    assert_eq!(exit_code(RepairEnd::Fault), 2);
}

fn sound() -> MaskFacts {
    MaskFacts {
        signature_len: 64,
        signature_finite: true,
        signature_zero: false,
        header_len: 20,
        eph_pub_offset: 20,
        eph_pub_length: 32,
        bins_off: None,
        fsm_states: vec![
            FsmState { state_id: 0, next_states: vec![0, 1] },
            FsmState { state_id: 1, next_states: vec![0] },
        ],
        fsm_initial_state: 0,
        expires_at: u64::MAX,
    }
}

#[test]
fn sound_mask_passes() {
    let report = validate_mask(&sound(), 1_000_000);
    assert!(report.passes() && report.warnings.is_empty());
    assert_eq!(report.expires, "never");
    assert_eq!(report.result_line(), "Result: PASS");
}

#[test]
fn odd_mask_passes_with_warnings() {
    let odd = MaskFacts { signature_zero: true, eph_pub_length: 16, ..sound() };
    let report = validate_mask(&odd, 0);
    assert!(report.passes());
    assert_eq!(
        report.warnings,
        texts(&[
            "signature_vector is all-zeros — neural resonance inactive for this mask",
            "eph_pub_length = 16 (expected 32 for X25519)",
        ])
    );
    assert_eq!(report.result_line(), "Result: PASS (with warnings)");
}

#[test]
fn unsound_mask_fails_on_each_count() {
    let bad = MaskFacts {
        signature_len: 63,
        header_len: 19,
        eph_pub_offset: 1400,
        bins_off: Some("0.5000".to_string()),
        fsm_states: vec![FsmState { state_id: 3, next_states: vec![3, 4] }],
        fsm_initial_state: 0,
        expires_at: 100,
        ..sound()
    };
    let report = validate_mask(&bad, 100 + 3 * 86_400);
    assert_eq!(
        report.issues,
        texts(&[
            "signature_vector: 63 floats (expected 64)",
            "header_template length (19) != eph_pub_offset (1400)",
            "eph region ends at byte 1432, which exceeds 1350",
            "size_distribution bins sum = 0.5000 (expected 1.0 ± 0.02)",
            "fsm_initial_state 0 not found in fsm_states",
            "FSM state 3: transition to unknown state 4",
            "mask expired 3 day(s) ago",
        ])
    );
    assert_eq!(report.expires, "EXPIRED (3 days ago)");
    assert_eq!(report.result_line(), "Result: FAIL (7 issue(s))");
    let broken = MaskFacts { signature_finite: false, ..sound() };
    assert_eq!(
        validate_mask(&broken, 0).issues,
        texts(&["signature_vector: contains NaN or Inf"])
    );
    let fresh = MaskFacts { expires_at: 86_400 * 5, ..sound() };
    assert_eq!(validate_mask(&fresh, 86_400).expires, "4 days remaining");
}
