use aivpn_server::batch::{next_batch, receive_limit, RecvSlot, MAX_BATCH};
use aivpn_server::bytes::byte_counts;
use aivpn_server::data_plane::{
    after_quota, choose_egress, data_verdict, inner_payload, inner_step, ipv4_addresses,
    packet_step, recovered_step, DataVerdict, Egress, FecState, InnerKind, InnerStep, PacketStep,
    SenderFacts, FEC_MAX_LEN,
};
use aivpn_server::downlink::{
    build_packet, downlink_padding, downlink_text, plan_downlink, route_tun_packet,
    worker_for_destination, TunRoute, SAFE_DOWNLINK_BUDGET,
};
use aivpn_server::icmp::{build_icmp_echo_reply, compute_checksum};
use aivpn_server::ingress::{
    add_padding, admit_handshake, after_candidate, certified_at_start, check_packet_length,
    choose_key, client_may_connect, compute_nonce, handshake_candidate, is_sampled,
    needs_tag_refresh, next_payload_offset, payload_offsets, receive_effects, session_layout,
    strip_padding, unmatched_handshake, Admission, CandidateAction, CandidateOutcome, KeyChoice,
    PacketError, PacketStanding, SessionLayout, TrafficCounters,
};
use aivpn_server::kernel::{
    kernel_session_sig, make_kernel_session_add, make_kernel_update_tags, socket_address_bytes,
    DownlinkBlock, KernelSession, SendState, TagEntry, KERNEL_DOWNLINK_BLOCK,
};
use aivpn_server::layout::{MaskProfile, TAG_IN_FRONT};
use aivpn_server::peer::{receive_worker_count, worker_index_for_packet, PeerAddr};
use aivpn_server::session_lookup::{
    find_existing_session, start_lookup, LookupAnswer, LookupOutcome, LookupStep,
};
use aivpn_server::throttle::{CounterTable, ScanBudget, SECOND};

const NOW: u64 = 1_000 * SECOND;

fn error_of<T>(r: Result<T, PacketError>) -> Option<PacketError> {
    match r {
        Ok(_) => None,
        Err(e) => Some(e),
    }
}

fn mask_with(tag_offset: u16) -> MaskProfile {
    MaskProfile {
        mask_id: "m".to_string(),
        header_template: vec![7; 20],
        header_min_length: None,
        eph_pub_offset: 20,
        eph_pub_length: 32,
        tag_offset,
        generated: false,
    }
}

#[test]
fn short_packets_are_refused() {
    assert!(error_of(check_packet_length(9)) == Some(PacketError::TooShort));
    assert!(check_packet_length(10).is_ok());
    assert_eq!(PacketError::TooShort.message(), "Too short");
}

#[test]
fn every_refusal_has_its_text() {
    let texts = [
        (PacketError::InvalidTag, "Invalid tag"),
        (PacketError::CooldownActive, "Handshake cooldown active"),
        (PacketError::ScanBudgetExhausted, "Handshake scan budget exhausted"),
        (PacketError::NoClientMatches, "No registered client matches this handshake"),
        (PacketError::NoMaskMatches, "No bootstrap mask matched this handshake"),
        (PacketError::TagMismatch, "Tag mismatch on new session"),
        (PacketError::RatchetedKeysMissing, "Ratcheted keys missing"),
        (PacketError::InvalidLength, "Invalid length"),
        (PacketError::PayloadTooShort, "Decrypted payload too short"),
        (PacketError::InvalidPadding, "Invalid padding length"),
        (PacketError::InnerTooShort, "Inner payload too short"),
    ];
    for (error, text) in texts {
        assert_eq!(error.message(), text);
    }
}

#[test]
fn handshakes_are_admitted_in_turn() {
    let mut cooldowns = CounterTable::new();
    let mut budget = ScanBudget::new(NOW);
    assert!(admit_handshake(true, 0, &cooldowns, 1, &mut budget, NOW) == Admission::Ignore);
    assert!(admit_handshake(false, 490, &cooldowns, 1, &mut budget, NOW) == Admission::Ignore);
    assert_eq!(budget.count, 0);
    assert!(admit_handshake(false, 489, &cooldowns, 1, &mut budget, NOW) == Admission::Proceed);
    assert_eq!(budget.count, 1);
    assert!(
        unmatched_handshake(true, &mut cooldowns, 1, NOW) == PacketError::NoClientMatches
    );
    assert!(
        admit_handshake(false, 0, &cooldowns, 1, &mut budget, NOW + 4 * SECOND - 1)
            == Admission::Refuse(PacketError::CooldownActive)
    );
    assert_eq!(budget.count, 1);
    assert!(
        admit_handshake(false, 0, &cooldowns, 1, &mut budget, NOW + 4 * SECOND)
            == Admission::Proceed
    );
    assert!(
        unmatched_handshake(false, &mut cooldowns, 2, NOW) == PacketError::NoMaskMatches
    );
    assert!(!cooldowns.is_cooling_down(2, NOW));
}

#[test]
fn handshake_scans_have_a_budget() {
    let cooldowns = CounterTable::new();
    let mut budget = ScanBudget::new(NOW);
    for _ in 0..100 {
        assert!(admit_handshake(false, 0, &cooldowns, 1, &mut budget, NOW) == Admission::Proceed);
    }
    assert!(
        admit_handshake(false, 0, &cooldowns, 1, &mut budget, NOW)
            == Admission::Refuse(PacketError::ScanBudgetExhausted)
    );
    assert!(
        admit_handshake(false, 0, &cooldowns, 1, &mut budget, NOW + SECOND)
            == Admission::Refuse(PacketError::ScanBudgetExhausted)
    );
    assert!(
        admit_handshake(false, 0, &cooldowns, 1, &mut budget, NOW + SECOND + 1)
            == Admission::Proceed
    );
}

#[test]
fn only_live_clients_connect() {
    assert!(client_may_connect(true, None, 5));
    assert!(client_may_connect(true, Some(6), 5));
    assert!(!client_may_connect(true, Some(5), 5));
    assert!(!client_may_connect(false, None, 5));
}

#[test]
fn handshake_is_read_where_the_mask_puts_it() {
    let packet: Vec<u8> = (0..80).collect();
    let front = handshake_candidate(&packet, &mask_with(TAG_IN_FRONT)).unwrap();
    assert_eq!(front.tag, [0, 1, 2, 3, 4, 5, 6, 7]);
    assert_eq!(&front.eph_pub[..], &packet[28..60]);
    let inside = handshake_candidate(&packet, &mask_with(8)).unwrap();
    assert_eq!(inside.tag, [8, 9, 10, 11, 12, 13, 14, 15]);
    assert_eq!(&inside.eph_pub[..], &packet[20..52]);
    assert!(handshake_candidate(&packet[..52], &mask_with(8)).is_some());
    assert!(handshake_candidate(&packet[..51], &mask_with(8)).is_none());
    assert!(handshake_candidate(&packet[..59], &mask_with(TAG_IN_FRONT)).is_none());
}

#[test]
fn candidates_are_tried_until_one_fits() {
    let created = |validated| CandidateOutcome::Created { validated };
    for registered in [true, false] {
        assert!(after_candidate(registered, created(true)) == CandidateAction::Accept);
        assert!(after_candidate(registered, created(false)) == CandidateAction::RollBack);
        assert!(
            after_candidate(registered, CandidateOutcome::PrecheckFailed) == CandidateAction::Next
        );
    }
    assert!(after_candidate(true, CandidateOutcome::CreateFailed) == CandidateAction::Next);
    assert!(after_candidate(false, CandidateOutcome::CreateFailed) == CandidateAction::Fail);
}

const CATALOG: SessionLayout = SessionLayout { packet_len: 14, handshake_len: 46, tag_offset: 6 };

#[test]
fn session_has_the_layout_of_its_mask() {
    let mask = mask_with(8);
    let own = session_layout(false, 30, Some(&mask), CATALOG);
    assert!(own == SessionLayout { packet_len: 20, handshake_len: 52, tag_offset: 8 });
    assert!(session_layout(false, 30, None, CATALOG) == CATALOG);
    let peer = session_layout(true, 30, Some(&mask), CATALOG);
    assert!(peer == SessionLayout { packet_len: 30, handshake_len: 30, tag_offset: TAG_IN_FRONT });
}

const SETTLED: PacketStanding =
    PacketStanding { is_new_session: false, is_ratcheted_tag: false, session_ratcheted: true };

#[test]
fn payload_is_looked_for_where_it_can_be() {
    let layout = SessionLayout { packet_len: 20, handshake_len: 52, tag_offset: TAG_IN_FRONT };
    let fresh = PacketStanding { is_new_session: true, ..SETTLED };
    let first = PacketStanding { session_ratcheted: false, ..SETTLED };
    assert_eq!(payload_offsets(200, SETTLED, layout, CATALOG, None), vec![28, 14]);
    assert_eq!(payload_offsets(200, fresh, layout, CATALOG, None), vec![60, 14]);
    assert_eq!(payload_offsets(76, first, layout, CATALOG, None), vec![28, 60, 14]);
    assert_eq!(payload_offsets(75, first, layout, CATALOG, None), vec![28, 14]);
    assert_eq!(payload_offsets(200, SETTLED, layout, CATALOG, Some(33)), vec![33, 28, 14]);
    assert_eq!(payload_offsets(200, SETTLED, layout, CATALOG, Some(14)), vec![28, 14]);
    assert_eq!(payload_offsets(200, SETTLED, layout, layout, Some(28)), vec![28]);
    let offsets = vec![300, 28, 14];
    assert_eq!(next_payload_offset(&offsets, 0, 200), Some(1));
    assert_eq!(next_payload_offset(&offsets, 2, 200), Some(2));
    assert_eq!(next_payload_offset(&offsets, 0, 14), None);
    assert_eq!(next_payload_offset(&offsets, 9, 200), None);
}

#[test]
fn keys_follow_the_tag() {
    let ratcheted = PacketStanding { is_ratcheted_tag: true, ..SETTLED };
    assert!(choose_key(SETTLED, false) == Ok(KeyChoice::Session));
    assert!(choose_key(ratcheted, true) == Ok(KeyChoice::Ratcheted));
    assert!(choose_key(ratcheted, false) == Err(PacketError::RatchetedKeysMissing));
    let fresh = PacketStanding { is_new_session: true, ..ratcheted };
    assert!(choose_key(fresh, false) == Ok(KeyChoice::Session));
}

#[test]
fn padding_comes_off_as_it_went_on() {
    let padded = add_padding(b"body", &[9; 300]);
    assert_eq!(&padded[..2], &[44, 1]);
    assert_eq!(padded.len(), 306);
    assert!(strip_padding(&padded) == Ok(b"body".to_vec()));
    assert!(strip_padding(&[0, 0]) == Ok(vec![]));
    assert!(strip_padding(&[0]) == Err(PacketError::PayloadTooShort));
    assert!(strip_padding(&[2, 0, 1]) == Err(PacketError::InvalidPadding));
}

#[test]
fn nonces_count_from_the_low_end() {
    assert_eq!(
        compute_nonce(0x0102_0304_0506_0708),
        [8, 7, 6, 5, 4, 3, 2, 1, 0, 0, 0, 0]
    );
    assert_ne!(compute_nonce(u64::MAX), compute_nonce(u64::MAX - 1));
}

#[test]
fn traffic_is_billed_in_portions() {
    let mut traffic =
        TrafficCounters { pending_bytes_in: 16_000, pending_bytes_out: 5, bytes_since_rekey: 1 };
    assert_eq!(traffic.account_uplink(383, true), None);
    assert_eq!(traffic.account_uplink(1, true), Some((16_384, 5)));
    assert!(
        traffic
            == TrafficCounters { pending_bytes_in: 0, pending_bytes_out: 0, bytes_since_rekey: 385 }
    );
    traffic.pending_bytes_out = 65_536 - 100;
    assert_eq!(traffic.account_downlink(35, true), None);
    assert_eq!(traffic.account_downlink(1, false), None);
    assert_eq!(traffic.pending_bytes_out, 0);
    traffic.pending_bytes_out = 65_536 - 100;
    assert_eq!(traffic.account_downlink(36, true), Some(65_536));
    traffic.bytes_since_rekey = u64::MAX;
    assert_eq!(traffic.account_uplink(u64::MAX, true), Some((u64::MAX, 0)));
    assert_eq!(traffic.bytes_since_rekey, u64::MAX);
}

#[test]
fn tag_window_moves_in_strides() {
    assert!(!needs_tag_refresh(127, 0));
    assert!(needs_tag_refresh(128, 0));
    assert!(!needs_tag_refresh(0, 500));
    assert!(is_sampled(32) && !is_sampled(33));
}

#[test]
fn opening_packet_only_proves_the_keys() {
    let fresh = PacketStanding { is_new_session: true, ..SETTLED };
    let effects = receive_effects(fresh, true, true, 0, 0, true);
    assert!(!effects.deliver && !effects.migrate && !effects.complete_ratchet && effects.sample);
    let ratcheted = PacketStanding { is_ratcheted_tag: true, ..SETTLED };
    let effects = receive_effects(ratcheted, true, true, 129, 1, true);
    assert!(effects.deliver && effects.migrate && effects.complete_ratchet);
    assert!(effects.install_kernel && effects.refresh_tags && !effects.sample);
    assert!(!receive_effects(ratcheted, false, false, 0, 0, false).install_kernel);
    assert!(certified_at_start(false) && !certified_at_start(true));
}

fn matched(counter: u64) -> LookupAnswer {
    LookupAnswer::Matched { counter, ratcheted: false }
}

fn found(tag: usize, counter: u64) -> LookupOutcome {
    LookupOutcome::Found { tag, counter, ratcheted: false }
}

#[test]
fn table_decides_before_any_scan() {
    assert!(start_lookup(2) == LookupOutcome::Ask(LookupStep::ByTag(0)));
    let step = LookupStep::ByTag(0);
    assert!(find_existing_session(2, step, matched(5)) == found(0, 5));
    assert!(find_existing_session(2, step, LookupAnswer::Rejected) == LookupOutcome::Invalid);
    assert!(
        find_existing_session(2, step, LookupAnswer::Unknown)
            == LookupOutcome::Ask(LookupStep::ByTag(1))
    );
    assert!(
        find_existing_session(2, LookupStep::ByTag(1), LookupAnswer::Unknown)
            == LookupOutcome::Ask(LookupStep::ChargeBudget)
    );
}

#[test]
fn scan_goes_from_refresh_to_recovery() {
    let unknown = LookupAnswer::Unknown;
    let ask = LookupOutcome::Ask;
    let next = |step, answer| find_existing_session(2, step, answer);
    assert!(start_lookup(0) == ask(LookupStep::ChargeBudget));
    assert!(
        next(LookupStep::ChargeBudget, LookupAnswer::Budget(false)) == LookupOutcome::NotFound
    );
    assert!(
        find_existing_session(0, LookupStep::ChargeBudget, LookupAnswer::Budget(true))
            == LookupOutcome::NotFound
    );
    assert!(next(LookupStep::ChargeBudget, LookupAnswer::Budget(true)) == ask(LookupStep::Refresh));
    assert!(next(LookupStep::Refresh, matched(3)) == found(0, 3));
    assert!(next(LookupStep::Refresh, unknown) == ask(LookupStep::ByTagAgain(0)));
    assert!(next(LookupStep::ByTagAgain(0), LookupAnswer::Rejected) == LookupOutcome::Invalid);
    assert!(next(LookupStep::ByTagAgain(0), unknown) == ask(LookupStep::ByTagAgain(1)));
    assert!(next(LookupStep::ByTagAgain(1), unknown) == ask(LookupStep::Recover(0)));
    assert!(next(LookupStep::Recover(0), LookupAnswer::Rejected) == ask(LookupStep::Recover(1)));
    assert!(next(LookupStep::Recover(1), matched(8)) == found(1, 8));
    assert!(next(LookupStep::Recover(1), unknown) == LookupOutcome::NotFound);
}

fn ipv4(source: [u8; 4], destination: [u8; 4], protocol: u8, rest: &[u8]) -> Vec<u8> {
    let mut packet = vec![0x45, 0, 0, (20 + rest.len()) as u8, 1, 2, 3, 4, 64, protocol, 0, 0];
    packet.extend_from_slice(&source);
    packet.extend_from_slice(&destination);
    packet.extend_from_slice(rest);
    packet
}

const CLIENT: [u8; 4] = [10, 0, 0, 2];
const SERVER: [u8; 4] = [10, 0, 0, 1];
const WORLD: [u8; 4] = [1, 1, 1, 1];

#[test]
fn payload_lies_behind_the_inner_header() {
    assert!(inner_payload(&[1, 2, 3, 4, 5]) == Ok(&[5][..]));
    assert!(inner_payload(&[1, 2, 3]) == Err(PacketError::InnerTooShort));
    assert!(inner_step(InnerKind::Data) == InnerStep::Packet);
    assert!(inner_step(InnerKind::Control) == InnerStep::Message);
    assert!(inner_step(InnerKind::FecRepair) == InnerStep::Repair);
    assert!(inner_step(InnerKind::Ack) == InnerStep::Ignore);
    assert!(inner_step(InnerKind::Fragment) == InnerStep::Ignore);
}

#[test]
fn packets_pass_the_gates_in_turn() {
    let packet = ipv4(CLIENT, WORLD, 17, &[0; 8]);
    assert_eq!(ipv4_addresses(&packet), Some((CLIENT, WORLD)));
    assert_eq!(ipv4_addresses(&packet[..19]), None);
    let verdict = |certified, ip, allow, to_client| {
        data_verdict(&packet, certified, Some(ip), allow, to_client)
    };
    assert!(verdict(false, CLIENT, true, false) == DataVerdict::Unauthenticated);
    assert!(verdict(true, SERVER, true, false) == DataVerdict::Spoofed);
    assert!(verdict(true, CLIENT, false, true) == DataVerdict::ToPeer);
    assert!(verdict(true, CLIENT, true, true) == DataVerdict::Forward);
    assert!(verdict(true, CLIENT, false, false) == DataVerdict::Forward);
    assert!(data_verdict(&[0x60; 40], true, None, true, false) == DataVerdict::NotIpv4);
    assert!(data_verdict(&packet, true, None, true, false) == DataVerdict::Forward);
}

#[test]
fn packets_leave_by_the_first_way_out() {
    assert!(choose_egress(true, false, true, true) == Egress::Chain);
    assert!(choose_egress(true, true, true, true) == Egress::Tun);
    assert!(choose_egress(false, false, false, true) == Egress::Nat);
    assert!(choose_egress(false, false, false, false) == Egress::Nowhere);
}

const SENDER: SenderFacts = SenderFacts {
    certified: true,
    vpn_ip: Some(CLIENT),
    has_client: true,
    is_site_peer: false,
    allow_peer_routing: false,
    has_chain: false,
    has_tun: true,
    has_nat: true,
};

#[test]
fn packets_are_routed_after_gates_and_quota() {
    let packet = ipv4(CLIENT, WORLD, 17, &[0; 8]);
    assert!(packet_step(&packet, &SENDER, false) == PacketStep::AskQuota(Egress::Tun));
    assert!(after_quota(Egress::Tun, true) == Some(Egress::Tun));
    assert!(after_quota(Egress::Tun, false).is_none());
    let anonymous = SenderFacts { has_client: false, has_chain: true, ..SENDER };
    assert!(packet_step(&packet, &anonymous, false) == PacketStep::Route(Egress::Chain));
    assert!(packet_step(&packet, &SENDER, true) == PacketStep::Drop(DataVerdict::ToPeer));
    let uncertified = SenderFacts { certified: false, ..SENDER };
    assert!(
        packet_step(&packet, &uncertified, false)
            == PacketStep::Drop(DataVerdict::Unauthenticated)
    );
    assert!(recovered_step(&packet, &uncertified, false) == Some(Egress::Tun));
    let spoofed = ipv4(WORLD, WORLD, 17, &[0; 8]);
    assert!(packet_step(&spoofed, &SENDER, false) == PacketStep::Drop(DataVerdict::Spoofed));
    assert!(recovered_step(&spoofed, &SENDER, false).is_none());
    assert!(recovered_step(&[0; 30], &SENDER, false).is_none());
    assert!(recovered_step(&packet, &SENDER, true).is_none());
}

#[test]
fn packets_that_were_not_handed_over_do_not_count() {
    let mut state = FecState::new();
    state.note_routed(b"abc", false);
    assert_eq!((state.xor_len, state.recv_count), (0, 0));
    state.note_routed(b"abc", true);
    assert_eq!((state.xor_len, state.recv_count), (3, 1));
    assert_eq!(state.xor_buf, b"abc");
}

#[test]
fn downlink_is_planned_from_the_mask() {
    let traffic =
        || TrafficCounters { pending_bytes_in: 7, pending_bytes_out: 65_000, bytes_since_rekey: 9 };
    let mask = mask_with(8);
    let mut ruled = mask_with(8);
    ruled.header_min_length = Some(2);
    let mut fallback = mask_with(8);
    fallback.header_template = vec![1, 2, 3];
    let mut t = traffic();
    let plan = plan_downlink(Some(&mask), vec![9], &fallback, true, 100, 50, &mut t, true);
    assert_eq!((plan.header, plan.pad_len, plan.flush), (vec![7; 20], 50, None));
    assert_eq!(t.pending_bytes_out, 65_164);
    let plan = plan_downlink(Some(&ruled), vec![9], &fallback, false, 900, 50, &mut t, true);
    assert_eq!((plan.header, plan.pad_len, plan.flush), (vec![9], 0, Some(66_128)));
    assert_eq!((t.pending_bytes_in, t.pending_bytes_out, t.bytes_since_rekey), (7, 0, 9));
    let plan = plan_downlink(None, vec![9], &fallback, true, 100, 50, &mut traffic(), false);
    assert_eq!((plan.header, plan.pad_len, plan.flush), (vec![1, 2, 3], 0, None));
}

#[test]
fn clients_read_back_what_is_sent() {
    let text = downlink_text(&[1, 0, 5, 0], b"packet", &[8; 16]);
    assert_eq!(text.len(), 2 + 4 + 6 + 16);
    assert_eq!(&text[..2], &[16, 0]);
    let body = strip_padding(&text).ok().unwrap();
    assert!(inner_payload(&body) == Ok(&b"packet"[..]));
}

#[test]
fn bytes_are_counted() {
    let counts = byte_counts(&[0, 1, 1, 255, 1]);
    assert_eq!((counts[0], counts[1], counts[2], counts[255]), (1, 3, 0, 1));
    assert_eq!(counts.len(), 256);
    assert_eq!(byte_counts(&[]).iter().sum::<usize>(), 0);
}

fn xor(packets: &[&[u8]]) -> Vec<u8> {
    let len = packets.iter().map(|p| p.len()).max().unwrap();
    (0..len).map(|i| packets.iter().fold(0, |x, p| x ^ p.get(i).copied().unwrap_or(0))).collect()
}

#[test]
fn lost_packet_is_recovered_from_parity() {
    let group: [&[u8]; 3] = [b"first packet", b"second", b"the third packet"];
    let mut state = FecState::new();
    state.accumulate(group[0]);
    state.accumulate(group[2]);
    let recovered = state.repair(0, 3, &xor(&group)).unwrap();
    assert_eq!(&recovered[..6], b"second");
    assert!(recovered[6..].iter().all(|&b| b == 0));
    assert_eq!(state.pending_seq, 1);
    assert_eq!((state.xor_len, state.recv_count), (0, 0));
}

#[test]
fn parity_is_no_use_with_two_lost_or_none() {
    let mut state = FecState::new();
    state.accumulate(b"one");
    assert!(state.repair(0, 3, b"xyz").is_none());
    assert_eq!(state.pending_seq, 1);
    state.accumulate(b"one");
    assert!(state.repair(1, 1, b"one").is_none());
    state.accumulate(b"one");
    assert!(state.repair(7, 2, b"one").is_none());
    assert_eq!(state.pending_seq, 8);
    assert!(state.repair(8, 0, b"one").is_none());
    assert_eq!(state.pending_seq, 8);
    state.accumulate(&[1; FEC_MAX_LEN + 9]);
    assert_eq!(state.xor_len, FEC_MAX_LEN);
    assert!(state.repair(u16::MAX, 9, b"").is_none());
    assert_eq!(state.pending_seq, 0);
}

#[test]
fn checksum_is_that_of_the_internet() {
    let header = [
        0x45, 0x00, 0x00, 0x73, 0x00, 0x00, 0x40, 0x00, 0x40, 0x11, 0x00, 0x00, 0xc0, 0xa8, 0x00,
        0x01, 0xc0, 0xa8, 0x00, 0xc7,
    ];
    assert_eq!(compute_checksum(&header), 0xb861);
    assert_eq!(compute_checksum(&[]), 0xffff);
    assert_eq!(compute_checksum(&[1]), 0xfeff);
    assert_eq!(compute_checksum(&[0xff; 131_072]), 0);
}

#[test]
fn pings_of_the_server_are_answered() {
    let ping = ipv4(CLIENT, SERVER, 1, &[8, 0, 0xaa, 0xbb, 0, 7, 0, 9, 1, 2, 3]);
    let reply = build_icmp_echo_reply(&ping, &SERVER).unwrap();
    assert_eq!(reply.len(), ping.len());
    assert_eq!(ipv4_addresses(&reply), Some((SERVER, CLIENT)));
    assert_eq!(reply[20], 0);
    assert_eq!(&reply[24..], &ping[24..]);
    assert_eq!(compute_checksum(&reply[20..]), 0);
    assert!(build_icmp_echo_reply(&reply, &SERVER).is_none());
    assert!(build_icmp_echo_reply(&ping[..27], &SERVER).is_none());
}

#[test]
fn tun_packets_find_their_way() {
    let ping = ipv4(CLIENT, SERVER, 1, &[8, 0, 0, 0, 0, 7, 0, 9]);
    assert!(matches!(route_tun_packet(&ping, &SERVER, true, true, 4), TunRoute::Reply(_)));
    let pong = ipv4(CLIENT, SERVER, 1, &[0, 0, 0, 0, 0, 7, 0, 9]);
    assert!(matches!(route_tun_packet(&pong, &SERVER, true, true, 4), TunRoute::Ignore));
    let inbound = ipv4(WORLD, CLIENT, 6, &[0; 20]);
    let expected = u32::from_be_bytes(CLIENT) as usize % 4;
    assert_eq!(worker_for_destination(&CLIENT, 4), expected);
    assert!(matches!(
        route_tun_packet(&inbound, &SERVER, false, false, 4),
        TunRoute::ToWorker(i) if i == expected
    ));
    assert!(matches!(route_tun_packet(&inbound, &SERVER, false, true, 4), TunRoute::Ignore));
    assert!(matches!(route_tun_packet(&[0x60; 40], &SERVER, true, false, 4), TunRoute::Ignore));
}

#[test]
fn padding_keeps_to_the_budget() {
    assert_eq!(downlink_padding(true, true, 20, 1000, 100), 100);
    assert_eq!(downlink_padding(true, true, 20, 1300, 100), 30);
    assert_eq!(8 + 20 + 2 + 4 + 1300 + 30 + 16, SAFE_DOWNLINK_BUDGET);
    assert_eq!(downlink_padding(true, true, 20, 1400, 100), 0);
    assert_eq!(downlink_padding(false, true, 20, 100, 100), 0);
    assert_eq!(downlink_padding(true, false, 20, 100, 100), 0);
    assert_eq!(
        build_packet(&[1; 8], &[2, 3], &[4, 5, 6]),
        vec![1, 1, 1, 1, 1, 1, 1, 1, 2, 3, 4, 5, 6]
    );
}

const V4: PeerAddr = PeerAddr::V4 { ip: [203, 0, 113, 7], port: 40000 };
const V6: PeerAddr = PeerAddr::V6 {
    ip6: [0x20, 1, 0xd, 0xb8, 0, 0, 0, 1, 9, 9, 9, 9, 9, 9, 9, 9],
    port: 443,
};

#[test]
fn addresses_have_stable_numbers() {
    assert_eq!(V4.shard_key(), (0xcb00_7107u64 << 16) | 40000);
    assert_eq!(V6.shard_key(), 0x0100_0000_b80d_0120 ^ 443);
    assert_eq!(V4.ip_key(), 0xffff_cb00_7107);
    assert_eq!(V6.ip_key(), 0x2001_0db8_0000_0001_0909_0909_0909_0909);
}

#[test]
fn session_stays_with_its_worker() {
    let index = worker_index_for_packet(V6, Some(V4), 7);
    assert_eq!(index, V4.shard_key() as usize % 7);
    assert_eq!(worker_index_for_packet(V4, None, 7), index);
    assert_eq!(worker_index_for_packet(V6, None, 1), 0);
    assert_eq!(receive_worker_count(None), 4);
    assert_eq!(receive_worker_count(Some(1)), 2);
    assert_eq!(receive_worker_count(Some(9)), 9);
    assert_eq!(receive_worker_count(Some(64)), 16);
}

#[test]
fn batches_cover_all_messages() {
    let mut offset = 0;
    let mut sizes = vec![];
    while let Some((from, to)) = next_batch(offset, 150) {
        assert_eq!(from, offset);
        sizes.push(to - from);
        offset = to;
    }
    assert_eq!(sizes, vec![64, 64, 22]);
    assert_eq!(next_batch(0, 0), None);
    assert_eq!((receive_limit(20), receive_limit(100)), (20, MAX_BATCH));
    let mut slot = RecvSlot::new(4);
    assert!(slot.packet().is_empty() && slot.addr.is_none());
    slot.buf[0] = 7;
    slot.len = 1;
    assert_eq!(slot.packet(), &[7]);
}

#[test]
fn kernel_gets_the_session_as_it_is() {
    let session = KernelSession {
        session_id: [1; 16],
        session_key: [2; 32],
        session_key_s2c: [3; 32],
        tag_secret: [4; 32],
        counter: 5,
        vpn_ip: Some(CLIENT),
        client_addr: V4,
    };
    let add = make_kernel_session_add(&session, 8, 20, [2, 0], 5000);
    assert_eq!((add.session_id, add.session_key), ([1; 16], [2; 32]));
    assert_eq!((add.session_key_s2c, add.tag_secret), ([3; 32], [4; 32]));
    assert_eq!((add.tag_offset, add.mdh_len, add.counter_base), (8, 20, 5));
    assert_eq!((add.client_ip, add.nonce_suffix, add.window_ms), (CLIENT, [0; 4], 5000));
    assert_eq!(&add.client_addr[..9], &[2, 0, 0x9c, 0x40, 203, 0, 113, 7, 0]);
    let v6 = socket_address_bytes(&V6, [10, 0]);
    assert_eq!(&v6[..12], &[10, 0, 1, 0xbb, 0, 0, 0, 0, 0x20, 1, 0xd, 0xb8]);
    assert_eq!(&v6[24..], &[0; 4]);
}

#[test]
fn signature_shows_stale_kernel_sessions() {
    let key = [0x11u8; 32];
    let sig = kernel_session_sig(&key, 8, 20);
    assert_eq!(sig, 0x1111_1111_1111_1111 ^ (8 << 48) ^ (20 << 32));
    assert_ne!(sig, kernel_session_sig(&key, 20, 8));
    assert_ne!(sig, kernel_session_sig(&[0x12; 32], 8, 20));
}

#[test]
fn kernel_counters_are_set_aside() {
    let mut state = SendState { send_counter: 10, send_seq: u32::MAX - 1, kernel_window: 0 };
    assert!(state.make_kernel_downlink(false, Some(20), 64, 9).is_none());
    assert!(state.make_kernel_downlink(true, None, 64, 9).is_none());
    assert!(state.make_kernel_downlink(true, Some(0), 64, 9).is_none());
    assert!(state.make_kernel_downlink(true, Some(65), 64, 9).is_none());
    assert!(!state.kernel_window_over(9));
    let block = state.make_kernel_downlink(true, Some(20), 64, 9);
    assert!(
        block == Some(DownlinkBlock { base: 10, count: KERNEL_DOWNLINK_BLOCK, seq_base: 65534 })
    );
    assert!(state == SendState { send_counter: 138, send_seq: 126, kernel_window: 9 });
    assert!(!state.kernel_window_over(9) && state.kernel_window_over(10));
    let next = state.make_kernel_downlink(true, Some(20), 64, 9).unwrap();
    assert_eq!(next.base, 138);
}

#[test]
fn kernel_gets_the_first_tags() {
    let expected: Vec<TagEntry> =
        (0..300u64).map(|i| TagEntry { tag: i.to_le_bytes(), counter: i }).collect();
    let tags = make_kernel_update_tags(&expected);
    assert_eq!(tags.len(), 256);
    assert!(tags.iter().enumerate().all(|(i, t)| t.counter == i as u64));
    assert_eq!(make_kernel_update_tags(&expected[..3].to_vec()).len(), 3);
}
