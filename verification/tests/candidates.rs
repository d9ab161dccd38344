use aivpn_server::candidates::{handshake_candidates, HandshakeClient, HandshakeTry};
use aivpn_server::layout::{MaskProfile, TAG_IN_FRONT};

fn mask(id: &str) -> MaskProfile {
    MaskProfile {
        mask_id: id.to_string(),
        header_template: vec![7; 20],
        header_min_length: None,
        eph_pub_offset: 20,
        eph_pub_length: 32,
        tag_offset: TAG_IN_FRONT,
        generated: false,
    }
}

fn masks(ids: &[&str]) -> Vec<MaskProfile> {
    ids.iter().map(|id| mask(id)).collect()
}

fn client(enabled: bool, expires_at: Option<i64>, ids: &[&str]) -> HandshakeClient {
    HandshakeClient { enabled, expires_at, descriptor_masks: masks(ids) }
}

fn named(tries: &[HandshakeTry]) -> Vec<(Option<usize>, &str)> {
    tries.iter().map(|t| (t.client, t.mask.mask_id.as_str())).collect()
}

#[test]
fn clients_are_tried_in_turn_with_their_masks_first() {
    let clients = vec![
        client(true, None, &["a1", "a2"]),
        client(false, None, &["b"]),
        client(true, Some(100), &["c"]),
        client(true, Some(101), &["d"]),
    ];
    let tries =
        handshake_candidates(&Some(clients), &masks(&["x"]), &masks(&["p", "q"]), 100);
    let first = [(Some(0), "a1"), (Some(0), "a2"), (Some(0), "p"), (Some(0), "q")];
    let last = [(Some(3), "d"), (Some(3), "p"), (Some(3), "q")];
    assert_eq!(named(&tries), [&first[..], &last[..]].concat());
}

#[test]
fn without_a_registry_masks_are_tried_once() {
    let tries = handshake_candidates(&None, &masks(&["x", "y"]), &masks(&["p"]), 100);
    assert_eq!(named(&tries), vec![(None, "x"), (None, "y"), (None, "p")]);
}

#[test]
fn an_empty_registry_admits_nobody() {
    let tries = handshake_candidates(&Some(vec![]), &masks(&["x"]), &masks(&["p"]), 100);
    assert!(tries.is_empty());
}
