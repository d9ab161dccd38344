use aivpn_server::layout::{
    candidate_tags, distinct_tag_offsets_of, extract_tag_for_layout, inner_l7_prefix,
    packet_layout_for_mask, packet_mdh_bytes_for_mask, tag_byte_offset, tag_prefix_len, MaskProfile,
    TAG_IN_FRONT, TAG_SIZE,
};
use aivpn_server::mask_catalog::MaskCatalog;
use aivpn_server::rotation::{check_session_mask, CheckStatus, MaskSigns};
use std::time::{Duration, Instant};

fn webrtc_zoom_v3() -> MaskProfile {
    MaskProfile {
        mask_id: "webrtc_zoom_v3".to_string(),
        header_template: vec![
            0x00, 0x01, 0x00, 0x00, 0x21, 0x12, 0xA4, 0x42, 0, 0, 0, 0, 0, 0, 0, 0, 0, 0, 0, 0,
        ],
        header_min_length: Some(20),
        eph_pub_offset: 20,
        eph_pub_length: 32,
        tag_offset: 8,
        generated: false,
    }
}

fn mask(id: &str, tag_offset: u16) -> MaskProfile {
    let mut m = webrtc_zoom_v3();
    m.mask_id = id.to_string();
    m.tag_offset = tag_offset;
    m
}

fn presets() -> Vec<MaskProfile> {
    vec![webrtc_zoom_v3(), mask("quic_https_v2", 6), mask("dns", TAG_IN_FRONT), mask("other", 8)]
}

#[test]
fn packet_layout_extracts_embedded_eph_pub_from_mdh() {
    let mut catalog = MaskCatalog::new();
    let mask = webrtc_zoom_v3();
    catalog.register_mask(mask.copy());
    catalog.set_primary_mask_id(mask.mask_id.clone());
    let (packet_mdh_len, handshake_mdh_len, eph_offset, eph_len) = catalog.packet_layout();
    let mut mdh = mask.header_template.clone();
    if mdh.len() < handshake_mdh_len {
        mdh.resize(handshake_mdh_len, 0);
    }
    let expected_eph = [0x5au8; 32];
    mdh[eph_offset..eph_offset + eph_len].copy_from_slice(&expected_eph);
    let mut packet = vec![0u8; TAG_SIZE];
    packet.extend_from_slice(&mdh);
    packet.extend_from_slice(&[0xabu8; 24]);
    let eph_start = TAG_SIZE + eph_offset;
    let payload_start = TAG_SIZE + handshake_mdh_len;
    assert_eq!(packet_mdh_len, 20, "regular STUN packet MDH length must stay at 20 bytes");
    assert_eq!(handshake_mdh_len, 52, "handshake MDH length must include embedded eph_pub");
    assert_eq!(&packet[eph_start..eph_start + eph_len], &expected_eph);
    assert_eq!(&packet[payload_start..], &[0xabu8; 24]);
}

#[test]
fn layout_without_masks_suits_most() {
    let catalog = MaskCatalog::new();
    assert_eq!(catalog.packet_layout(), (20, 52, 20, 32));
    assert_eq!(catalog.packet_mdh_bytes(vec![9]), vec![0u8; 20]);
    assert_eq!(catalog.primary_tag_offset(), TAG_IN_FRONT);
    assert!(catalog.primary_mask().is_none());
}

#[test]
fn layout_follows_the_template_without_rules() {
    let mut m = webrtc_zoom_v3();
    m.header_min_length = None;
    assert_eq!(packet_layout_for_mask(&m), (20, 52, 20, 32));
    assert_eq!(packet_mdh_bytes_for_mask(&m, vec![1, 2]), m.header_template);
    m.header_min_length = Some(14);
    assert_eq!(packet_layout_for_mask(&m).0, 14);
    assert_eq!(packet_mdh_bytes_for_mask(&m, vec![1, 2]), vec![1, 2]);
}

#[test]
fn tags_are_found_where_the_layout_says() {
    let packet: Vec<u8> = (0..20).collect();
    assert_eq!(extract_tag_for_layout(&packet, TAG_IN_FRONT), Some([0, 1, 2, 3, 4, 5, 6, 7]));
    assert_eq!(extract_tag_for_layout(&packet, 12), Some([12, 13, 14, 15, 16, 17, 18, 19]));
    assert_eq!(extract_tag_for_layout(&packet, 13), None);
    assert_eq!((tag_prefix_len(TAG_IN_FRONT), tag_byte_offset(TAG_IN_FRONT)), (8, 0));
    assert_eq!((tag_prefix_len(6), tag_byte_offset(6)), (0, 6));
    let tags = candidate_tags(&packet, &vec![0, 12, 13, usize::MAX]);
    assert_eq!(tags, vec![[0, 1, 2, 3, 4, 5, 6, 7], [12, 13, 14, 15, 16, 17, 18, 19]]);
}

#[test]
fn preset_tag_offsets_cached_at_construction_matches_presets() {
    let mut catalog = MaskCatalog::new();
    catalog.register_mask(webrtc_zoom_v3());
    let expected = distinct_tag_offsets_of(&presets());
    assert_eq!(expected, vec![0, 8, 6]);
    assert_eq!(catalog.distinct_tag_offsets(&expected), expected);
}

#[test]
fn distinct_tag_offsets_merges_cached_presets_with_live_catalog_without_mutating_cache() {
    let mut catalog = MaskCatalog::new();
    catalog.register_mask(webrtc_zoom_v3());
    let cached = distinct_tag_offsets_of(&presets());
    let preset_only = cached.clone();
    let mut custom = webrtc_zoom_v3();
    custom.mask_id = "custom-test-mask".to_string();
    custom.tag_offset = 123;
    assert!(
        !preset_only.contains(&123),
        "test setup: 123 must not already be a preset offset"
    );
    catalog.register_mask(custom);
    let merged = catalog.distinct_tag_offsets(&cached);
    assert!(
        merged.contains(&123),
        "a newly-registered runtime catalog mask's offset must be included"
    );
    for off in &preset_only {
        assert!(merged.contains(off), "preset offset {off} must survive the merge");
    }
    assert_eq!(
        cached, preset_only,
        "the cached preset field itself must be untouched by a catalog change"
    );
}

fn best_of<F: FnMut()>(trials: u32, n: u32, mut f: F) -> Duration {
    let mut best = Duration::MAX;
    for _ in 0..trials {
        let start = Instant::now();
        for _ in 0..n {
            f();
        }
        let elapsed = start.elapsed();
        if elapsed < best {
            best = elapsed;
        }
    }
    best
}

#[test]
fn distinct_tag_offsets_hot_path_is_cheap_at_scale() {
    let mut catalog = MaskCatalog::new();
    catalog.register_mask(webrtc_zoom_v3());
    let cached = distinct_tag_offsets_of(&presets());
    let cached_elapsed = best_of(5, 50_000, || {
        let _ = catalog.distinct_tag_offsets(&cached);
    });
    let uncached_elapsed = best_of(5, 50_000, || {
        let offsets = distinct_tag_offsets_of(&presets());
        let _ = catalog.distinct_tag_offsets(&offsets);
    });
    assert!(cached_elapsed <= uncached_elapsed);
}

#[test]
fn inner_l7_prefix_extracts_udp_payload() {
    let mut ip = vec![0u8; 20];
    ip[0] = 0x45;
    ip[9] = 17;
    ip.extend_from_slice(&[0, 0, 0, 0, 0, 0, 0, 0]);
    let stun = [0x00, 0x01, 0x00, 0x08, 0x21, 0x12, 0xA4, 0x42, 1, 2, 3, 4];
    ip.extend_from_slice(&stun);
    let l7 = inner_l7_prefix(&ip);
    assert_eq!(&l7[..], &stun[..]);
    assert_eq!(&l7[4..8], &[0x21, 0x12, 0xA4, 0x42]);
}

#[test]
fn inner_l7_prefix_handles_tcp_and_caps_at_16() {
    let mut ip = vec![0u8; 20];
    ip[0] = 0x45;
    ip[9] = 6;
    let mut tcp = vec![0u8; 20];
    tcp[12] = 0x50;
    ip.extend_from_slice(&tcp);
    ip.extend_from_slice(&[0xAB; 20]);
    let l7 = inner_l7_prefix(&ip);
    assert_eq!(l7.len(), 16);
    assert!(l7.iter().all(|&b| b == 0xAB));
}

#[test]
fn inner_l7_prefix_rejects_non_ipv4_and_ciphertext() {
    assert!(inner_l7_prefix(&[]).is_empty());
    assert!(inner_l7_prefix(&[0x60; 40]).is_empty());
    assert!(inner_l7_prefix(&[0x45, 0, 0, 0]).is_empty());
    assert!(inner_l7_prefix(&[0x9f, 0x3c, 0xa1, 0x00, 0xde, 0xad, 0xbe, 0xef]).is_empty());
}

#[test]
fn catalog_prefers_its_primary_mask_then_the_first_by_id() {
    let mut catalog = MaskCatalog::new();
    for id in ["zeta", "beta", "gamma"] {
        catalog.register_mask(mask(id, TAG_IN_FRONT));
    }
    assert_eq!(catalog.available_count(), 3);
    assert_eq!(catalog.primary_mask().unwrap().mask_id, "beta");
    catalog.set_primary_mask_id("gamma".to_string());
    assert_eq!(catalog.primary_mask().unwrap().mask_id, "gamma");
    catalog.remove_mask(&"gamma".to_string());
    assert_eq!(catalog.primary_mask().unwrap().mask_id, "beta");
    catalog.register_mask(mask("gamma", TAG_IN_FRONT));
    assert_eq!(catalog.primary_mask().unwrap().mask_id, "gamma");
}

#[test]
fn adopted_primary_is_one_of_the_catalog() {
    let mut catalog = MaskCatalog::new();
    assert!(catalog.adopt_primary().is_none());
    catalog.register_mask(mask("a", 4));
    catalog.register_mask(mask("b", 5));
    let adopted = catalog.adopt_primary().unwrap();
    assert_eq!(catalog.primary_mask().unwrap().mask_id, adopted.mask_id);
}

#[test]
fn compromised_mask_never_comes_back() {
    let mut catalog = MaskCatalog::new();
    catalog.register_mask(mask("a", 4));
    catalog.mark_compromised(&"a".to_string(), 1);
    catalog.register_mask(mask("a", 4));
    assert_eq!(catalog.available_count(), 0);
    assert!(catalog.select_fallback(&"b".to_string()).is_none());
}

const CALM: MaskSigns = MaskSigns {
    status: CheckStatus::Healthy,
    may_rotate: true,
    reads_as_tunnel: None,
    may_still_rotate: false,
    anomalous: false,
};

fn two_masks() -> MaskCatalog {
    let mut catalog = MaskCatalog::new();
    catalog.register_mask(mask("used", 4));
    catalog.register_mask(mask("spare", 5));
    catalog
}

#[test]
fn healthy_mask_stays() {
    let mut catalog = two_masks();
    let plan = check_session_mask(&mut catalog, &"used".to_string(), CALM, 7);
    assert!(plan.replacement.is_none() && plan.counted_check == Some(false));
    assert_eq!(catalog.available_count(), 2);
    let failed = MaskSigns { status: CheckStatus::Failed, ..CALM };
    assert!(check_session_mask(&mut catalog, &"used".to_string(), failed, 7).counted_check.is_none());
}

#[test]
fn compromised_mask_is_replaced_once() {
    let mut catalog = two_masks();
    let signs = MaskSigns { status: CheckStatus::Compromised, anomalous: true, ..CALM };
    let plan = check_session_mask(&mut catalog, &"used".to_string(), signs, 7);
    assert_eq!(plan.replacement.unwrap().mask_id, "spare");
    assert_eq!((plan.rotations_noted, plan.attack_counted), (1, false));
    assert_eq!(catalog.available_count(), 1);
    let held = MaskSigns { may_rotate: false, ..signs };
    let plan = check_session_mask(&mut catalog, &"spare".to_string(), held, 8);
    assert!(plan.replacement.is_none() && plan.rotations_noted == 0);
    assert_eq!(catalog.available_count(), 1);
}

#[test]
fn tunnel_verdict_and_losses_replace_a_mask() {
    let mut catalog = two_masks();
    let signs = MaskSigns { reads_as_tunnel: Some(true), ..CALM };
    let plan = check_session_mask(&mut catalog, &"used".to_string(), signs, 7);
    assert_eq!(plan.replacement.unwrap().mask_id, "spare");
    assert_eq!(plan.rotations_noted, 1);
    let mut catalog = two_masks();
    let signs = MaskSigns { anomalous: true, may_rotate: false, ..CALM };
    let plan = check_session_mask(&mut catalog, &"used".to_string(), signs, 7);
    assert!(plan.attack_counted && plan.rotations_noted == 0);
    assert_eq!(plan.replacement.unwrap().mask_id, "spare");
}

#[test]
fn last_mask_is_given_up_without_a_replacement() {
    let mut catalog = MaskCatalog::new();
    catalog.register_mask(mask("used", 4));
    let signs = MaskSigns {
        status: CheckStatus::Compromised,
        reads_as_tunnel: Some(true),
        may_still_rotate: true,
        anomalous: true,
        ..CALM
    };
    let plan = check_session_mask(&mut catalog, &"used".to_string(), signs, 7);
    assert!(plan.replacement.is_none());
    assert_eq!((plan.rotations_noted, plan.attack_counted), (2, true));
    assert_eq!(catalog.available_count(), 0);
}
