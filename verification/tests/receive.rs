use aivpn_server::ingress::{
    add_padding, compute_nonce, KeyChoice, PacketError, SessionLayout, TrafficCounters,
};
use aivpn_server::layout::MaskProfile;
use aivpn_server::receive::{Action, Event, Guards, Phase, Receiving, SessionReading};
use aivpn_server::session_lookup::{LookupAnswer, LookupStep};
use aivpn_server::throttle::SECOND;

const NOW: u64 = 1_000 * SECOND;
const ADDRESS: u128 = 42;
const CATALOG: SessionLayout = SessionLayout { packet_len: 20, handshake_len: 52, tag_offset: 8 };

fn packet() -> Vec<u8> {
    (0..100).collect()
}

fn mask() -> MaskProfile {
    MaskProfile {
        mask_id: "m".to_string(),
        header_template: vec![0; 20],
        header_min_length: None,
        eph_pub_offset: 20,
        eph_pub_length: 32,
        tag_offset: 8,
        generated: false,
    }
}

fn begin(guards: &mut Guards, registered: bool) -> (Receiving, Action) {
    Receiving::start(packet(), &vec![0, 8], registered, ADDRESS, CATALOG, guards, NOW)
}

fn reading() -> SessionReading {
    SessionReading {
        is_cluster_peer: false,
        cluster_header_len: 20,
        mask: Some(mask()),
        session_ratcheted: true,
        has_ratcheted_keys: false,
        quic: None,
        has_kernel: false,
        from_other_address: true,
        window_base: 0,
        checks_masks: true,
        traffic: TrafficCounters {
            pending_bytes_in: 16_300,
            pending_bytes_out: 1,
            bytes_since_rekey: 0,
        },
        has_client: true,
    }
}

fn unknown() -> Event {
    Event::Answer(LookupAnswer::Unknown)
}

/// Leads a packet that no session knows to its turn among the handshakes.
fn to_slot(guards: &mut Guards, registered: bool) -> Receiving {
    let (mut r, action) = begin(guards, registered);
    assert!(matches!(action, Action::Ask(LookupStep::ByTag(0))));
    let mut step = |r: &mut Receiving| r.advance(unknown(), guards, NOW);
    assert!(matches!(step(&mut r), Action::Ask(LookupStep::ByTag(1))));
    assert!(matches!(step(&mut r), Action::Ask(LookupStep::Refresh)));
    assert!(matches!(step(&mut r), Action::Ask(LookupStep::ByTagAgain(0))));
    assert!(matches!(step(&mut r), Action::Ask(LookupStep::ByTagAgain(1))));
    assert!(matches!(step(&mut r), Action::Ask(LookupStep::Recover(0))));
    assert!(matches!(step(&mut r), Action::Ask(LookupStep::Recover(1))));
    assert!(matches!(step(&mut r), Action::TakeSlot));
    r
}

/// Leads a handshake to the check of its first candidate.
fn to_precheck(guards: &mut Guards, registered: bool) -> Receiving {
    let mut r = to_slot(guards, registered);
    let slot = Event::Slot { in_progress: false, session_count: 0 };
    assert!(matches!(r.advance(slot, guards, NOW), Action::NextCandidate));
    match r.advance(Event::Candidate(Some(mask())), guards, NOW) {
        Action::Precheck { tag, eph_pub } => {
            assert_eq!(tag[..], packet()[8..16]);
            assert_eq!(eph_pub[..], packet()[20..52]);
        }
        _ => panic!("the candidate fits the packet"),
    }
    r
}

#[test]
fn short_packet_goes_nowhere() {
    let mut guards = Guards::new(NOW);
    let (r, action) =
        Receiving::start(vec![0; 9], &vec![0], true, ADDRESS, CATALOG, &mut guards, NOW);
    assert!(matches!(action, Action::Fail(PacketError::TooShort)));
    assert!(matches!(r.phase, Phase::Done));
}

#[test]
fn packet_of_a_known_session_is_delivered() {
    let mut guards = Guards::new(NOW);
    let (mut r, _) = begin(&mut guards, true);
    assert_eq!(r.tags, vec![[0, 1, 2, 3, 4, 5, 6, 7], [8, 9, 10, 11, 12, 13, 14, 15]]);
    r.advance(unknown(), &mut guards, NOW);
    let found = Event::Answer(LookupAnswer::Matched { counter: 144, ratcheted: false });
    assert!(matches!(r.advance(found, &mut guards, NOW), Action::ReadSession));
    match r.advance(Event::Session(reading()), &mut guards, NOW) {
        Action::Open { key, nonce, offset } => {
            assert!(key == KeyChoice::Session);
            assert_eq!((nonce, offset), (compute_nonce(144), 20));
        }
        _ => panic!("the packet is long enough to be opened"),
    }
    let opened = Event::Opened(Some(add_padding(b"what it holds", &[1; 5])));
    match r.advance(opened, &mut guards, NOW) {
        Action::Account { effects, traffic, flush } => {
            assert!(effects.migrate && effects.refresh_tags && effects.sample && effects.deliver);
            assert!(!effects.complete_ratchet);
            assert_eq!(flush, Some((16_400, 1)));
            assert_eq!(traffic.bytes_since_rekey, 100);
            assert_eq!((traffic.pending_bytes_in, traffic.pending_bytes_out), (0, 0));
        }
        _ => panic!("the padding is in order"),
    }
    assert!(matches!(
        r.advance(Event::Accounted, &mut guards, NOW),
        Action::Deliver { body } if body == b"what it holds"
    ));
    assert!(matches!(r.advance(Event::Accounted, &mut guards, NOW), Action::PassOn));
}

#[test]
fn rejected_tag_refuses_the_packet() {
    let mut guards = Guards::new(NOW);
    let (mut r, _) = begin(&mut guards, true);
    let rejected = Event::Answer(LookupAnswer::Rejected);
    assert!(matches!(
        r.advance(rejected, &mut guards, NOW),
        Action::Fail(PacketError::InvalidTag)
    ));
}

#[test]
fn scans_stop_when_the_budget_is_spent() {
    let mut guards = Guards::new(NOW);
    for _ in 0..20 {
        assert!(guards.fallback.fallback_scan_allowed(NOW));
    }
    let (mut r, _) = begin(&mut guards, true);
    r.advance(unknown(), &mut guards, NOW);
    assert!(matches!(r.advance(unknown(), &mut guards, NOW), Action::TakeSlot));
}

#[test]
fn keys_are_replaced_before_the_padding_is_looked_at() {
    let mut guards = Guards::new(NOW);
    let (mut r, _) = begin(&mut guards, true);
    let found = Event::Answer(LookupAnswer::Matched { counter: 1, ratcheted: true });
    r.advance(found, &mut guards, NOW);
    let session =
        SessionReading { has_ratcheted_keys: true, has_kernel: true, ..reading() };
    assert!(matches!(
        r.advance(Event::Session(session), &mut guards, NOW),
        Action::Open { key: KeyChoice::Ratcheted, .. }
    ));
    assert!(matches!(
        r.advance(Event::Opened(Some(vec![9, 9])), &mut guards, NOW),
        Action::CompleteRatchet { install_kernel: true }
    ));
    assert!(matches!(
        r.advance(Event::Ratcheted, &mut guards, NOW),
        Action::Fail(PacketError::InvalidPadding)
    ));
}

#[test]
fn missing_keys_refuse_the_packet() {
    let mut guards = Guards::new(NOW);
    let (mut r, _) = begin(&mut guards, true);
    let found = Event::Answer(LookupAnswer::Matched { counter: 1, ratcheted: true });
    r.advance(found, &mut guards, NOW);
    assert!(matches!(
        r.advance(Event::Session(reading()), &mut guards, NOW),
        Action::Fail(PacketError::RatchetedKeysMissing)
    ));
}

#[test]
fn every_offset_is_tried_until_one_opens() {
    let mut guards = Guards::new(NOW);
    let (mut r, _) = begin(&mut guards, true);
    let found = Event::Answer(LookupAnswer::Matched { counter: 1, ratcheted: false });
    r.advance(found, &mut guards, NOW);
    let session = SessionReading { session_ratcheted: false, quic: Some(33), ..reading() };
    let mut action = r.advance(Event::Session(session), &mut guards, NOW);
    let mut offsets = vec![];
    while let Action::Open { offset, .. } = action {
        offsets.push(offset);
        action = r.advance(Event::Opened(None), &mut guards, NOW);
    }
    assert_eq!(offsets, vec![33, 20, 52]);
    assert!(matches!(action, Action::PassOn));
}

#[test]
fn packet_without_a_payload_has_an_invalid_length() {
    let mut guards = Guards::new(NOW);
    let layout = SessionLayout { packet_len: 500, handshake_len: 500, tag_offset: 8 };
    let (mut r, _) =
        Receiving::start(packet(), &vec![0], true, ADDRESS, layout, &mut guards, NOW);
    let found = Event::Answer(LookupAnswer::Matched { counter: 1, ratcheted: false });
    r.advance(found, &mut guards, NOW);
    let session = SessionReading { mask: None, ..reading() };
    assert!(matches!(
        r.advance(Event::Session(session), &mut guards, NOW),
        Action::Fail(PacketError::InvalidLength)
    ));
}

#[test]
fn handshakes_wait_their_turn() {
    let mut guards = Guards::new(NOW);
    let mut r = to_slot(&mut guards, true);
    let busy = Event::Slot { in_progress: true, session_count: 0 };
    assert!(matches!(r.advance(busy, &mut guards, NOW), Action::Finish));
    let mut r = to_slot(&mut guards, true);
    let full = Event::Slot { in_progress: false, session_count: 490 };
    assert!(matches!(r.advance(full, &mut guards, NOW), Action::Finish));
    assert_eq!(guards.handshake.count, 0);
}

#[test]
fn unmatched_handshake_makes_its_address_wait() {
    let mut guards = Guards::new(NOW);
    let mut r = to_precheck(&mut guards, true);
    assert!(matches!(
        r.advance(Event::Prechecked(false), &mut guards, NOW),
        Action::NextCandidate
    ));
    assert!(matches!(
        r.advance(Event::Candidate(None), &mut guards, NOW),
        Action::Fail(PacketError::NoClientMatches)
    ));
    let mut r = to_slot(&mut guards, true);
    let slot = Event::Slot { in_progress: false, session_count: 0 };
    assert!(matches!(
        r.advance(slot, &mut guards, NOW + SECOND),
        Action::Fail(PacketError::CooldownActive)
    ));
    let mut guards = Guards::new(NOW);
    let mut r = to_precheck(&mut guards, false);
    r.advance(Event::Prechecked(false), &mut guards, NOW);
    assert!(matches!(
        r.advance(Event::Candidate(None), &mut guards, NOW),
        Action::Fail(PacketError::NoMaskMatches)
    ));
    assert!(!guards.cooldowns.is_cooling_down(ADDRESS, NOW));
}

#[test]
fn candidate_that_does_not_fit_is_passed_over() {
    let mut guards = Guards::new(NOW);
    let mut r = to_slot(&mut guards, true);
    let slot = Event::Slot { in_progress: false, session_count: 0 };
    r.advance(slot, &mut guards, NOW);
    let long = MaskProfile { header_template: vec![0; 101], ..mask() };
    assert!(matches!(
        r.advance(Event::Candidate(Some(long)), &mut guards, NOW),
        Action::NextCandidate
    ));
}

#[test]
fn session_that_cannot_be_created_ends_the_search_of_an_open_server() {
    let mut guards = Guards::new(NOW);
    let mut r = to_precheck(&mut guards, true);
    assert!(matches!(r.advance(Event::Prechecked(true), &mut guards, NOW), Action::Create));
    assert!(matches!(r.advance(Event::Created(false), &mut guards, NOW), Action::NextCandidate));
    let mut r = to_precheck(&mut guards, false);
    r.advance(Event::Prechecked(true), &mut guards, NOW);
    assert!(matches!(r.advance(Event::Created(false), &mut guards, NOW), Action::PassOn));
}

#[test]
fn session_that_rejects_its_tag_is_taken_back() {
    let mut guards = Guards::new(NOW);
    let mut r = to_precheck(&mut guards, true);
    r.advance(Event::Prechecked(true), &mut guards, NOW);
    assert!(matches!(
        r.advance(Event::Created(true), &mut guards, NOW),
        Action::CheckHandshakeTag { tag } if tag[..] == packet()[8..16]
    ));
    assert!(matches!(
        r.advance(Event::HandshakeTag(false), &mut guards, NOW),
        Action::RollBack
    ));
    assert!(matches!(r.advance(Event::RolledBack, &mut guards, NOW), Action::NextCandidate));
    r.advance(Event::Candidate(Some(mask())), &mut guards, NOW);
    r.advance(Event::Prechecked(true), &mut guards, NOW);
    r.advance(Event::Created(true), &mut guards, NOW);
    assert!(matches!(
        r.advance(Event::HandshakeTag(true), &mut guards, NOW),
        Action::CheckTag { .. }
    ));
    assert!(matches!(r.advance(Event::NewTag(None), &mut guards, NOW), Action::RollBack));
    assert!(matches!(
        r.advance(Event::RolledBack, &mut guards, NOW),
        Action::Fail(PacketError::TagMismatch)
    ));
}

#[test]
fn packet_that_opens_a_session_is_not_delivered() {
    let mut guards = Guards::new(NOW);
    guards.cooldowns.note_failure(ADDRESS, NOW - 60 * SECOND);
    let mut r = to_precheck(&mut guards, true);
    r.advance(Event::Prechecked(true), &mut guards, NOW);
    r.advance(Event::Created(true), &mut guards, NOW);
    r.advance(Event::HandshakeTag(true), &mut guards, NOW);
    assert!(matches!(
        r.advance(Event::NewTag(Some((0, false))), &mut guards, NOW),
        Action::Establish
    ));
    assert!(!guards.cooldowns.is_cooling_down(ADDRESS, NOW - 60 * SECOND));
    assert!(matches!(
        r.advance(Event::Established(true), &mut guards, NOW),
        Action::ReadSession
    ));
    assert!(matches!(
        r.advance(Event::Session(reading()), &mut guards, NOW),
        Action::Open { offset: 52, .. }
    ));
    let opened = Event::Opened(Some(add_padding(b"ignored", &[])));
    assert!(matches!(
        r.advance(opened, &mut guards, NOW),
        Action::Account { effects, .. } if !effects.deliver && !effects.migrate
    ));
    assert!(matches!(r.advance(Event::Accounted, &mut guards, NOW), Action::Finish));
}

#[test]
fn client_that_cannot_be_greeted_is_refused() {
    let mut guards = Guards::new(NOW);
    let mut r = to_precheck(&mut guards, true);
    r.advance(Event::Prechecked(true), &mut guards, NOW);
    r.advance(Event::Created(true), &mut guards, NOW);
    r.advance(Event::HandshakeTag(true), &mut guards, NOW);
    r.advance(Event::NewTag(Some((0, false))), &mut guards, NOW);
    assert!(matches!(r.advance(Event::Established(false), &mut guards, NOW), Action::PassOn));
}
