use aivpn_server::layout::polymorphic_variant_already_active;
use aivpn_server::throttle::{
    handshake_cooldown, mask_feedback_throttled, mask_preference_throttled, CounterTable,
    ScanBudget, SlotTable, COOLDOWN_RETENTION, MASK_FEEDBACK_THROTTLE, MASK_PREFERENCE_THROTTLE,
    MAX_DNS_RPS, MAX_FALLBACK_SCANS_PER_SEC, MAX_HANDSHAKE_SCANS_PER_SEC, MILLISECOND,
    RATE_LIMIT_RETENTION, SECOND,
};

const NOW: u64 = 1_000 * SECOND;

#[test]
fn maskpreference_idempotency_skips_when_variant_already_active() {
    assert!(polymorphic_variant_already_active(
        Some("polymorphic:webrtc_zoom_v3:ab12"),
        "polymorphic:webrtc_zoom_v3:ab12"
    ));
    assert!(!polymorphic_variant_already_active(
        Some("polymorphic:webrtc_zoom_v3:ab12"),
        "polymorphic:webrtc_zoom_v3:ff99"
    ));
    assert!(!polymorphic_variant_already_active(
        Some("webrtc_zoom_v3"),
        "polymorphic:webrtc_zoom_v3:ab12"
    ));
    assert!(!polymorphic_variant_already_active(
        None,
        "polymorphic:webrtc_zoom_v3:ab12"
    ));
}

#[test]
fn mask_preference_throttle_blocks_within_window() {
    let now = NOW;
    assert!(!mask_preference_throttled(None, now));
    assert!(mask_preference_throttled(Some(now), now));
    let later = now + 500 * MILLISECOND;
    assert!(mask_preference_throttled(Some(now), later));
}

#[test]
fn mask_preference_throttle_allows_after_window_elapses() {
    let now = NOW;
    let after_window = now + MASK_PREFERENCE_THROTTLE + MILLISECOND;
    assert!(!mask_preference_throttled(Some(now), after_window));
}

#[test]
fn mask_preference_throttle_window_covers_client_retry_gap_but_retries_are_idempotent_not_throttled(
) {
    let first_processed = NOW;
    let retry_offsets_ms = [500u64, 1500, 3000, 5000];
    let within_window: Vec<bool> = retry_offsets_ms
        .iter()
        .map(|&ms| {
            let t = first_processed + ms * MILLISECOND;
            mask_preference_throttled(Some(first_processed), t)
        })
        .collect();
    assert_eq!(within_window, vec![true, true, false, false]);
}

#[test]
fn try_claim_mask_preference_slot_first_racer_wins_second_is_suppressed() {
    let mut throttle = SlotTable::new();
    let session_id = u128::from_be_bytes([7u8; 16]);
    let now = NOW;
    assert!(throttle.try_claim_mask_preference_slot(session_id, now));
    assert!(!throttle.try_claim_mask_preference_slot(session_id, now));
    let still_within = now + MILLISECOND;
    assert!(!throttle.try_claim_mask_preference_slot(session_id, still_within));
}

#[test]
fn try_claim_mask_preference_slot_allows_again_after_window_elapses() {
    let mut throttle = SlotTable::new();
    let session_id = u128::from_be_bytes([8u8; 16]);
    let now = NOW;
    assert!(throttle.try_claim_mask_preference_slot(session_id, now));
    let after_window = now + MASK_PREFERENCE_THROTTLE + MILLISECOND;
    assert!(throttle.try_claim_mask_preference_slot(session_id, after_window));
}

#[test]
fn try_claim_mask_preference_slot_is_independent_per_session() {
    let mut throttle = SlotTable::new();
    let now = NOW;
    assert!(throttle.try_claim_mask_preference_slot(u128::from_be_bytes([1u8; 16]), now));
    assert!(throttle.try_claim_mask_preference_slot(u128::from_be_bytes([2u8; 16]), now));
}

#[test]
fn mask_feedback_throttle_blocks_within_window() {
    let now = NOW;
    assert!(!mask_feedback_throttled(None, now));
    assert!(mask_feedback_throttled(Some(now), now));
    let later = now + 500 * MILLISECOND;
    assert!(mask_feedback_throttled(Some(now), later));
    let after_window = now + MASK_FEEDBACK_THROTTLE + MILLISECOND;
    assert!(!mask_feedback_throttled(Some(now), after_window));
}

#[test]
fn try_claim_mask_feedback_slot_is_atomic_check_and_claim() {
    let mut throttle = SlotTable::new();
    let session_id = u128::from_be_bytes([7u8; 16]);
    let t0 = NOW;
    assert!(
        throttle.try_claim_mask_feedback_slot(session_id, t0),
        "first claim for a fresh session must succeed"
    );
    assert!(
        !throttle.try_claim_mask_feedback_slot(session_id, t0),
        "second claim within the window must be throttled"
    );
    let t1 = t0 + MASK_FEEDBACK_THROTTLE + MILLISECOND;
    assert!(
        throttle.try_claim_mask_feedback_slot(session_id, t1),
        "claim after the window has elapsed must succeed again"
    );
}

#[test]
fn mask_feedback_throttle_is_scoped_per_session() {
    let mut throttle = SlotTable::new();
    let session_a = u128::from_be_bytes([1u8; 16]);
    let session_b = u128::from_be_bytes([2u8; 16]);
    let now = NOW;
    assert!(throttle.try_claim_mask_feedback_slot(session_a, now));
    assert!(throttle.try_claim_mask_feedback_slot(session_b, now));
    assert!(!throttle.try_claim_mask_feedback_slot(session_a, now));
    assert!(!throttle.try_claim_mask_feedback_slot(session_b, now));
}

#[test]
fn mask_feedback_and_mask_preference_throttles_are_independent_constants() {
    assert_ne!(MASK_FEEDBACK_THROTTLE, MASK_PREFERENCE_THROTTLE);
}

#[test]
fn forgetting_free_slots_keeps_held_ones() {
    let mut throttle = SlotTable::new();
    assert!(throttle.try_claim_slot(1, NOW, SECOND));
    assert!(throttle.try_claim_slot(2, NOW + SECOND / 2, SECOND));
    throttle.forget_free(NOW + SECOND, SECOND);
    assert!(throttle.try_claim_slot(1, NOW + SECOND, SECOND));
    assert!(!throttle.try_claim_slot(2, NOW + SECOND, SECOND));
}

#[test]
fn scan_budgets_cap_each_second() {
    let mut fallback = ScanBudget::new(NOW);
    for _ in 0..MAX_FALLBACK_SCANS_PER_SEC {
        assert!(fallback.fallback_scan_allowed(NOW + SECOND));
    }
    assert!(!fallback.fallback_scan_allowed(NOW + SECOND));
    assert!(fallback.fallback_scan_allowed(NOW + SECOND + 1));
    let mut handshake = ScanBudget::new(NOW);
    for _ in 0..MAX_HANDSHAKE_SCANS_PER_SEC {
        assert!(handshake.handshake_scan_allowed(NOW));
    }
    assert!(!handshake.handshake_scan_allowed(NOW));
}

#[test]
fn packet_limit_is_per_address_and_per_second() {
    let mut table = CounterTable::new();
    for _ in 0..3 {
        assert!(table.packet_allowed(10, NOW, 3));
    }
    assert!(!table.packet_allowed(10, NOW, 3));
    assert!(table.packet_allowed(11, NOW, 3));
    assert!(table.packet_allowed(10, NOW + SECOND + 1, 3));
    table.forget_idle(NOW + SECOND + 1 + RATE_LIMIT_RETENTION, RATE_LIMIT_RETENTION);
    assert!(table.packet_allowed(10, NOW + SECOND + 1, 1));
}

#[test]
fn dns_limit_does_not_count_refused_queries() {
    let mut table = CounterTable::new();
    for _ in 0..MAX_DNS_RPS {
        assert!(table.query_allowed(7, NOW));
    }
    assert!(!table.query_allowed(7, NOW + SECOND - 1));
    assert!(table.query_allowed(7, NOW + SECOND));
    assert!(table.query_allowed(8, NOW));
}

#[test]
fn handshake_cooldown_doubles_up_to_sixteen_seconds() {
    let waits: Vec<u64> = (0..6).map(handshake_cooldown).collect();
    assert_eq!(
        waits,
        vec![2 * SECOND, 4 * SECOND, 8 * SECOND, 16 * SECOND, 16 * SECOND, 16 * SECOND]
    );
    let mut table = CounterTable::new();
    assert!(!table.is_cooling_down(5, NOW));
    table.note_failure(5, NOW);
    assert!(table.is_cooling_down(5, NOW + 4 * SECOND - 1));
    assert!(!table.is_cooling_down(5, NOW + 4 * SECOND));
    assert!(!table.is_cooling_down(6, NOW));
    table.note_failure(5, NOW);
    assert!(table.is_cooling_down(5, NOW + 8 * SECOND - 1));
    table.clear(5);
    assert!(!table.is_cooling_down(5, NOW));
    assert!(handshake_cooldown(9) < COOLDOWN_RETENTION);
}
