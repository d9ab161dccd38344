use aivpn_server::control::{
    accept_certificate, after_binding, audit_entry, build_mask_catalog_payload,
    can_start_recording, check_enrollment, control_step, handle_mask_feedback, hash_addr,
    makes_mask, mask_notice, move_to_variant, recording_audit, recording_notice, variant_base,
    AuditEvent, ControlMessage, ControlStep, EnrollmentStep, FeedbackRules, MaskNotice,
    RecordingEnd, RecordingNotice, SessionFacts, StopReason,
};
use aivpn_server::housekeeping::{
    count_polymorphic, kernel_downlink_enabled, may_arm_kernel, revoked_sessions, sweep_tables,
    ClientStanding, LiveSession, RekeyClock,
};
use aivpn_server::layout::{MaskProfile, TAG_IN_FRONT};
use aivpn_server::mask_feedback::{MaskFeedbackStore, MaskOutcome};
use aivpn_server::throttle::{CounterTable, SlotTable, SECOND};

const NOW: u64 = 1_000 * SECOND;
const CLIENT: [u8; 4] = [10, 0, 0, 2];

fn facts() -> SessionFacts {
    SessionFacts {
        session_id: 7,
        client_id: Some("id-1".to_string()),
        client_name: Some("alice".to_string()),
        has_mask: true,
        is_ratcheted: true,
        has_pending_rekey: true,
        is_pool_peer: false,
        is_site_peer: false,
        vpn_ip: Some(CLIENT),
        catalog_version_sent: 0,
        catalog_version: None,
        has_client_db: true,
        has_recorder: true,
        has_tun: true,
        exit_node_enabled: true,
        mtls_enabled: true,
    }
}

fn profile(id: &str, generated: bool) -> MaskProfile {
    MaskProfile {
        mask_id: id.to_string(),
        header_template: vec![0; 4],
        header_min_length: None,
        eph_pub_offset: 4,
        eph_pub_length: 32,
        tag_offset: TAG_IN_FRONT,
        generated,
    }
}

#[test]
fn keys_are_replaced_only_when_asked_for() {
    let message = || ControlMessage::KeyRotate { new_eph_pub: [9; 32] };
    assert!(matches!(
        control_step(message(), &facts()),
        ControlStep::CommitRekey { new_eph_pub } if new_eph_pub == [9; 32]
    ));
    let f = SessionFacts { has_pending_rekey: false, ..facts() };
    assert!(matches!(control_step(message(), &f), ControlStep::Ignore));
}

#[test]
fn keepalive_is_answered_with_the_list_when_it_is_new() {
    let message = || ControlMessage::Keepalive { send_ts: 77 };
    assert!(matches!(
        control_step(message(), &facts()),
        ControlStep::AckKeepalive { echo_ts: 77, catalog: Some(1) }
    ));
    let f = SessionFacts { catalog_version_sent: 4, catalog_version: Some(4), ..facts() };
    assert!(matches!(
        control_step(message(), &f),
        ControlStep::AckKeepalive { echo_ts: 77, catalog: None }
    ));
    let f = SessionFacts { is_ratcheted: false, ..facts() };
    assert!(matches!(control_step(message(), &f), ControlStep::ResendServerHello));
}

#[test]
fn telemetry_goes_both_ways() {
    assert!(matches!(
        control_step(ControlMessage::TelemetryRequest, &facts()),
        ControlStep::ReplyTelemetry { packet_loss: 0, rtt_ms: 10, jitter_ms: 2, buffer_pct: 25 }
    ));
    let message = || ControlMessage::TelemetryResponse { packet_loss: 5, rtt_ms: 90 };
    assert!(matches!(
        control_step(message(), &facts()),
        ControlStep::RecordTelemetry { packet_loss: 5, rtt_ms: 90 }
    ));
    let f = SessionFacts { has_mask: false, ..facts() };
    assert!(matches!(control_step(message(), &f), ControlStep::Ignore));
    assert!(matches!(
        control_step(ControlMessage::QualityReport { quality: 80, rtt_ms: 65535 }, &facts()),
        ControlStep::NoteQuality { quality: 80, round_trip_ms: 65535 }
    ));
}

#[test]
fn only_administrators_record() {
    let start = || ControlMessage::RecordingStart { service: "zoom".to_string() };
    assert!(matches!(control_step(start(), &facts()), ControlStep::RefuseRecording));
    let admin = || SessionFacts { client_name: Some("recording-admin-1".to_string()), ..facts() };
    assert!(matches!(
        control_step(start(), &admin()),
        ControlStep::StartRecording { service } if service == "zoom"
    ));
    let f = SessionFacts { has_recorder: false, ..admin() };
    assert!(matches!(control_step(start(), &f), ControlStep::Ignore));
    assert!(matches!(
        control_step(ControlMessage::RecordingStatusRequest, &admin()),
        ControlStep::ReportRecording { can_record: true }
    ));
    assert!(!can_start_recording(&None));
    assert!(!can_start_recording(&Some("a recording-admin".to_string())));
}

#[test]
fn only_its_own_session_stops_a_recording() {
    let stop = |session_id| ControlMessage::RecordingStop { session_id };
    assert!(matches!(control_step(stop(7), &facts()), ControlStep::StopRecording));
    assert!(matches!(control_step(stop(8), &facts()), ControlStep::RefuseStop));
    let f = SessionFacts { has_recorder: false, ..facts() };
    assert!(matches!(control_step(stop(7), &f), ControlStep::Ignore));
    assert!(matches!(
        control_step(ControlMessage::Shutdown, &f),
        ControlStep::EndSession { stop_recording: false }
    ));
}

#[test]
fn only_servers_of_the_pool_are_merged() {
    let message = || ControlMessage::PoolSync { clients_json: vec![1] };
    assert!(matches!(control_step(message(), &facts()), ControlStep::RejectPoolSync));
    let peer = || SessionFacts { is_pool_peer: true, ..facts() };
    assert!(matches!(
        control_step(message(), &peer()),
        ControlStep::MergeClients { clients_json } if clients_json == vec![1]
    ));
    let f = SessionFacts { has_client_db: false, ..peer() };
    assert!(matches!(control_step(message(), &f), ControlStep::Ignore));
    let routes = || ControlMessage::RouteSync { subnets_json: vec![2] };
    assert!(matches!(control_step(routes(), &facts()), ControlStep::Ignore));
    let f = SessionFacts { is_site_peer: true, ..facts() };
    assert!(matches!(control_step(routes(), &f), ControlStep::ApplyRoutes { .. }));
}

#[test]
fn exit_packets_carry_the_address_of_their_session() {
    let mut packet = vec![0u8; 20];
    packet[0] = 0x45;
    packet[12..16].copy_from_slice(&CLIENT);
    let message = || ControlMessage::ChainForward { payload: packet.clone() };
    assert!(matches!(
        control_step(message(), &facts()),
        ControlStep::WriteToTun { payload } if payload == packet
    ));
    let blocked = [
        SessionFacts { exit_node_enabled: false, ..facts() },
        SessionFacts { has_tun: false, ..facts() },
        SessionFacts { vpn_ip: None, ..facts() },
        SessionFacts { vpn_ip: Some([10, 0, 0, 3]), ..facts() },
    ];
    for f in &blocked {
        assert!(matches!(control_step(message(), f), ControlStep::Ignore));
    }
    let short = ControlMessage::ChainForward { payload: packet[..19].to_vec() };
    assert!(matches!(control_step(short, &facts()), ControlStep::Ignore));
}

#[test]
fn certificates_are_for_the_key_of_the_session() {
    let cert = || ControlMessage::ClientCert { cert_bytes: vec![3] };
    assert!(matches!(control_step(cert(), &facts()), ControlStep::CheckCert { .. }));
    let f = SessionFacts { mtls_enabled: false, ..facts() };
    assert!(matches!(control_step(cert(), &f), ControlStep::Ignore));
    assert!(accept_certificate(Some([1; 32]), &[1; 32], true));
    assert!(!accept_certificate(Some([1; 32]), &[1; 32], false));
    assert!(!accept_certificate(Some([2; 32]), &[1; 32], true));
    assert!(!accept_certificate(None, &[1; 32], true));
}

#[test]
fn devices_enroll_with_a_proof() {
    let enroll =
        || ControlMessage::DeviceEnrollment { static_pub: [1; 32], dh_proof: [2; 32] };
    assert!(matches!(
        control_step(enroll(), &facts()),
        ControlStep::CheckEnrollment { static_pub, dh_proof }
            if static_pub == [1; 32] && dh_proof == [2; 32]
    ));
    let f = SessionFacts { client_id: None, ..facts() };
    assert!(matches!(control_step(enroll(), &f), ControlStep::Ignore));
    assert!(check_enrollment(Some([5; 32]), &[5; 32]) == EnrollmentStep::Bind);
    assert!(
        check_enrollment(Some([5; 32]), &[6; 32]) == EnrollmentStep::Reject { reason: 3 }
    );
    assert!(check_enrollment(None, &[5; 32]) == EnrollmentStep::Ignore);
    assert_eq!(after_binding(true), None);
    assert_eq!(after_binding(false), Some(4));
}

#[test]
fn messages_of_servers_are_ignored() {
    for message in [
        ControlMessage::ServerHello,
        ControlMessage::MaskUpdate,
        ControlMessage::KeepaliveAck,
        ControlMessage::RegionalMaskHints,
        ControlMessage::MaskCatalog,
        ControlMessage::FeedbackConfig,
        ControlMessage::CertRejected,
        ControlMessage::TimeSync,
    ] {
        assert!(matches!(control_step(message, &facts()), ControlStep::Ignore));
    }
}

#[test]
fn preferences_and_reports_are_passed_on() {
    let message = ControlMessage::MaskPreference { base_mask_id: "zoom".to_string() };
    assert!(matches!(
        control_step(message, &facts()),
        ControlStep::PreferMask { base_mask_id } if base_mask_id == "zoom"
    ));
    let message = ControlMessage::MaskFeedback { entries: vec![], country_code: *b"US" };
    assert!(matches!(
        control_step(message, &facts()),
        ControlStep::TakeFeedback { country_code, .. } if country_code == *b"US"
    ));
}

#[test]
fn session_moves_to_a_variant_once() {
    let mut slots = SlotTable::new();
    assert!(!move_to_variant(&mut slots, 1, Some("polymorphic:a:1"), "polymorphic:a:1", NOW));
    assert!(move_to_variant(&mut slots, 1, Some("a"), "polymorphic:a:1", NOW));
    assert!(!move_to_variant(&mut slots, 1, Some("a"), "polymorphic:a:1", NOW + SECOND));
    assert!(move_to_variant(&mut slots, 1, None, "polymorphic:a:2", NOW + 2 * SECOND));
    assert!(move_to_variant(&mut slots, 2, None, "polymorphic:a:1", NOW));
}

#[test]
fn variant_is_made_of_the_configured_mask() {
    let a = || Some(profile("a", false));
    let b = || Some(profile("b", false));
    assert_eq!(variant_base(a(), b()).unwrap().mask_id, "a");
    assert_eq!(variant_base(None, b()).unwrap().mask_id, "b");
    assert!(variant_base(None, None).is_none());
}

const RULES: FeedbackRules =
    FeedbackRules { report_failure_threshold: 3, report_interval_secs: 3600 };

#[test]
fn reports_are_taken_in_and_answered_in_turn() {
    let mut store = MaskFeedbackStore::with_k_anon(1);
    let mut slots = SlotTable::new();
    let entries = [MaskOutcome { mask_id: "mask_a".to_string(), success: 1, fail: 0 }];
    let mut report = |client: Option<&str>, entries: &[MaskOutcome], now| {
        let reply = handle_mask_feedback(
            &mut store, &mut slots, 1, client, entries, *b"US", RULES, 10, now,
        );
        (reply.taken, reply.hints.len(), reply.rules == Some(RULES), store.bucket_count())
    };
    assert_eq!(report(None, &entries, NOW), (false, 0, true, 0));
    assert_eq!(report(Some("id"), &[], NOW + 5 * SECOND), (false, 0, true, 0));
    assert_eq!(report(Some("id"), &entries, NOW + 10 * SECOND), (true, 1, true, 1));
    assert_eq!(report(Some("id"), &entries, NOW + 11 * SECOND), (true, 0, false, 1));
}

#[test]
fn reporters_are_known_by_a_digest_of_their_name() {
    let mut store = MaskFeedbackStore::with_k_anon(1);
    let mut slots = SlotTable::new();
    let outcome = |id: &str| MaskOutcome { mask_id: id.to_string(), success: 1, fail: 0 };
    let mut plain = aivpn_server::hll::Hll::new();
    for i in 0..8u128 {
        let name = format!("id-{i}");
        let token = blake3::hash(name.as_bytes());
        handle_mask_feedback(
            &mut store, &mut slots, i, Some(&name), &[outcome("a")], *b"US", RULES, 10, NOW,
        );
        store.record_feedback(*b"US", token.as_bytes(), &[outcome("b")], 10);
        plain.add(token.as_bytes());
    }
    let a = store.buckets.bucket(b"US", &"a".to_string()).unwrap().reporters.registers();
    let b = store.buckets.bucket(b"US", &"b".to_string()).unwrap().reporters.registers();
    assert!(a[..] == b[..]);
    assert!(a[..] != plain.registers()[..], "tokens are salted");
}

#[test]
fn list_of_masks_has_no_id_twice() {
    let presets = vec![profile("a", false), profile("b", false)];
    let stored = vec![profile("b", true), profile("c", true), profile("c", false)];
    let list = build_mask_catalog_payload(&presets, &stored);
    let marks: Vec<(&str, bool)> =
        list.iter().map(|e| (e.mask_id.as_str(), e.generated)).collect();
    assert_eq!(marks, vec![("a", false), ("b", false), ("c", true)]);
}

#[test]
fn recordings_end_with_a_notice() {
    assert!(matches!(
        recording_notice(RecordingEnd::Completed, true),
        RecordingNotice::Ack { status: "analyzing" }
    ));
    let texts = [
        (StopReason::Requested, "Too few packets or too short duration"),
        (
            StopReason::IdleTimeout,
            "Recording stopped after idle timeout before enough traffic was captured",
        ),
        (
            StopReason::SessionEnded,
            "Recording ended with the session before enough traffic was captured",
        ),
    ];
    for (why, text) in texts {
        assert!(matches!(
            recording_notice(RecordingEnd::Incomplete(why), true),
            RecordingNotice::Failed { reason } if reason == text
        ));
    }
    assert!(matches!(recording_notice(RecordingEnd::NotFound, true), RecordingNotice::Silent));
    assert!(matches!(recording_notice(RecordingEnd::Completed, false), RecordingNotice::Silent));
    assert!(makes_mask(RecordingEnd::Completed));
    assert!(!makes_mask(RecordingEnd::Incomplete(StopReason::Requested)));
}

#[test]
fn addresses_are_logged_by_a_digest() {
    let digest = blake3::hash(b"203.0.113.7:40000").to_hex();
    assert_eq!(hash_addr("203.0.113.7:40000"), digest[..8]);
    assert_eq!(
        recording_audit("zoom", "203.0.113.7:40000"),
        format!("service=zoom peer={}", &digest[..8])
    );
}

#[test]
fn audit_log_names_action_and_outcome() {
    let entries = [
        (AuditEvent::RecordingStart, ("RecordingStart", "ok")),
        (AuditEvent::RecordingStop, ("RecordingStop", "ok")),
        (AuditEvent::PoolSyncRejected, ("PoolSync", "rejected: not a pool peer")),
        (AuditEvent::CertAccepted, ("ClientCert", "accepted")),
        (AuditEvent::CertRejected, ("ClientCert", "rejected")),
        (AuditEvent::EnrollmentRejected, ("device_enrollment_rejected", "denied")),
        (AuditEvent::OtherDevice, ("device_binding_mismatch", "denied")),
    ];
    for (event, entry) in entries {
        assert_eq!(audit_entry(event), entry);
    }
}

#[test]
fn sessions_of_revoked_clients_end() {
    let session = |session_id, client| LiveSession { session_id, client };
    let known = |enabled, expires_at| ClientStanding::Known { enabled, expires_at };
    let sessions = vec![
        session(1, ClientStanding::Anonymous),
        session(2, ClientStanding::Unknown),
        session(3, known(true, None)),
        session(4, known(false, None)),
        session(5, known(true, Some(99))),
        session(6, known(true, Some(101))),
    ];
    assert_eq!(revoked_sessions(&sessions, 100), vec![2, 4, 5]);
}

#[test]
fn idle_entries_are_swept() {
    let mut rates = CounterTable::new();
    let mut cooldowns = CounterTable::new();
    let mut preferences = SlotTable::new();
    let mut feedback = SlotTable::new();
    rates.packet_allowed(1, NOW, 1);
    cooldowns.note_failure(1, NOW);
    preferences.try_claim_mask_preference_slot(1, NOW);
    feedback.try_claim_mask_feedback_slot(1, NOW);
    let late = NOW + 3 * SECOND;
    sweep_tables(&mut rates, &mut cooldowns, &mut preferences, &mut feedback, late);
    assert!(cooldowns.is_cooling_down(1, late));
    assert!(!feedback.try_claim_mask_feedback_slot(1, late));
    let later = NOW + 61 * SECOND;
    sweep_tables(&mut rates, &mut cooldowns, &mut preferences, &mut feedback, later);
    assert!(!cooldowns.is_cooling_down(1, NOW));
    assert!(feedback.try_claim_mask_feedback_slot(1, NOW));
}

#[test]
fn variants_in_use_are_counted() {
    let ids = vec![
        Some("polymorphic:a:1".to_string()),
        None,
        Some("a".to_string()),
        Some("polymorphic:".to_string()),
    ];
    assert_eq!(count_polymorphic(&ids), 2);
}

#[test]
fn keys_are_renewed_every_fifteen_ticks() {
    let mut clock = RekeyClock { tick: 0 };
    let due: Vec<u32> = (1..=45).filter(|_| clock.advance()).collect();
    assert_eq!(due, vec![15, 30, 45]);
    let mut clock = RekeyClock { tick: u32::MAX };
    assert!(clock.advance());
}

#[test]
fn kernel_path_is_switched_by_the_environment() {
    for on in ["1", "true", "TRUE", "True"] {
        assert!(kernel_downlink_enabled(Some(on)));
    }
    for off in ["", "0", "yes", "11", "true "] {
        assert!(!kernel_downlink_enabled(Some(off)));
    }
    assert!(!kernel_downlink_enabled(None));
    assert!(may_arm_kernel(true, 3) && !may_arm_kernel(true, 0) && !may_arm_kernel(false, 3));
}

#[test]
fn client_is_told_what_became_of_its_recording() {
    let made = mask_notice("zoom".to_string(), Ok("zoom_v4".to_string()), true);
    assert!(matches!(
        made,
        MaskNotice::Complete { service, mask_id } if service == "zoom" && mask_id == "zoom_v4"
    ));
    let failed = mask_notice("zoom".to_string(), Err("too few packets".to_string()), true);
    assert!(matches!(failed, MaskNotice::Failed { reason } if reason == "too few packets"));
    let gone = mask_notice("zoom".to_string(), Ok("zoom_v4".to_string()), false);
    assert!(matches!(gone, MaskNotice::Silent));
}
