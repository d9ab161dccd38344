use aivpn_server::publish::BootstrapPublishConfig;
use aivpn_server::settings::{
    assemble_config, build_connection_key, build_connection_server_addr, cert_expiry,
    default_ipv6_prefix_str, effective_mtu, first_setting, format_bytes, key_in_base64, key_in_hex, key_of,
    key_of_decoded, mtu_inside, netmask_in_use, parse_interface_mtu, parse_key_hex, parse_key_text,
    parse_mtu, parse_signing_seed, pool_sync_key, resolve_config_path, resolve_listen_addr,
    resolve_mask_dir, resolve_mask_operator_pubkey, resolve_mask_verify_mode,
    resolve_network_config, resolve_peer_routing, route_device, BadNetmask, ConnectionInfo,
    FeedbackFileConfig, GatewayConfig, JsonNetworkConfig, KeyError, MaskVerifyMode, MtuError,
    MtuSetting, MtuValue, PolymorphicFileConfig, ResolvedInputs, ServerArgs, ServerFileConfig,
    VpnNetworkConfig, DEFAULT_TUN_MTU,
};
use base64::Engine;

fn text(t: &str) -> Option<String> {
    Some(t.to_string())
}

fn network() -> VpnNetworkConfig {
    GatewayConfig::default().network_config
}

fn empty_file() -> ServerFileConfig {
    ServerFileConfig {
        listen_addr: None,
        tun_name: None,
        tun_addr: None,
        tun_netmask: None,
        network_config: None,
        mask_dir: None,
        session_timeout_secs: None,
        idle_timeout_secs: None,
        tun_mtu: None,
        exit_node_enabled: None,
        allow_peer_routing: None,
        downlink_shaping: None,
        neural_enabled: None,
        bootstrap_publish: None,
        feedback: None,
        polymorphic: None,
        mask_signing_key: None,
        mask_operator_pubkey: None,
        mask_verify_mode: None,
    }
}

fn block(ip: [u8; 4], mtu: Option<MtuSetting>) -> JsonNetworkConfig {
    JsonNetworkConfig {
        server_vpn_ip: Some(ip),
        prefix_len: Some(24),
        mtu,
        keepalive_secs: None,
        ipv6_enabled: false,
        ipv6_prefix: String::new(),
    }
}

#[test]
fn build_connection_server_addr_keeps_explicit_port() {
    assert_eq!(
        build_connection_server_addr("203.0.113.10:8443", true, Some(443)),
        "203.0.113.10:8443"
    );
}

#[test]
fn build_connection_server_addr_adds_listen_port_once() {
    assert_eq!(
        build_connection_server_addr("203.0.113.10", false, Some(443)),
        "203.0.113.10:443"
    );
}

#[test]
fn build_connection_server_addr_falls_back_to_the_usual_port() {
    assert_eq!(build_connection_server_addr("vpn.example", false, None), "vpn.example:443");
    assert_eq!(build_connection_server_addr("vpn.example", false, Some(8443)), "vpn.example:8443");
}

const NETWORK_JSON: &str =
    r#"{"client_ip":"10.0.0.2","mdh_len":20,"mtu":1346,"prefix_len":24,"server_vpn_ip":"10.0.0.1"}"#;

fn decoded(key: &str) -> serde_json::Value {
    let payload = key.strip_prefix("aivpn://").unwrap();
    let json_bytes = base64::engine::general_purpose::URL_SAFE_NO_PAD.decode(payload).unwrap();
    serde_json::from_slice(&json_bytes).unwrap()
}

#[test]
fn build_connection_key_embeds_normalized_server_addr() {
    let addr = build_connection_server_addr("203.0.113.10:8443", true, Some(443));
    let key = build_connection_key(&ConnectionInfo {
        server_addr: &addr,
        server_key: "server-key",
        psk: "psk",
        client_ip: "10.0.0.2",
        network_json: NETWORK_JSON,
        signing_key: None,
        operator_key: None,
    });
    let json = decoded(&key);
    assert_eq!(json["s"], "203.0.113.10:8443");
    assert_eq!(json["n"]["prefix_len"], 24);
}

#[test]
fn connection_key_holds_all_that_was_given() {
    let key = build_connection_key(&ConnectionInfo {
        server_addr: "a \"quoted\" address",
        server_key: &key_in_base64(&[1; 32]),
        psk: &key_in_base64(&[2; 16]),
        client_ip: "10.0.0.2",
        network_json: NETWORK_JSON,
        signing_key: Some([3; 32]),
        operator_key: Some([4; 32]),
    });
    let json = decoded(&key);
    let standard = base64::engine::general_purpose::STANDARD;
    assert_eq!(json["s"], "a \"quoted\" address");
    assert_eq!(json["k"], standard.encode([1; 32]));
    assert_eq!(json["p"], standard.encode([2; 16]));
    assert_eq!(json["i"], "10.0.0.2");
    assert_eq!(json["sk"], standard.encode([3; 32]));
    assert_eq!(json["mop"], standard.encode([4; 32]));
    let object = json.as_object().unwrap();
    assert_eq!(
        object.keys().map(|k| k.as_str()).collect::<Vec<_>>(),
        vec!["i", "k", "mop", "n", "p", "s", "sk"]
    );
    let sorted = serde_json::to_string(&json).unwrap();
    assert_eq!(
        key,
        format!(
            "aivpn://{}",
            base64::engine::general_purpose::URL_SAFE_NO_PAD.encode(sorted.as_bytes())
        )
    );
}

#[test]
fn resolve_network_config_prefers_network_config_block() {
    let file = ServerFileConfig {
        tun_addr: Some([10, 0, 0, 1]),
        tun_netmask: Some([255, 255, 255, 0]),
        network_config: Some(block([10, 150, 0, 1], Some(MtuSetting::Fixed(1400)))),
        ..empty_file()
    };
    let resolved = resolve_network_config(Some(&file), 1400, Some(24), network()).ok().unwrap();
    assert_eq!(resolved.server_vpn_ip, [10, 150, 0, 1]);
    assert_eq!(resolved.mtu, 1400);
}

#[test]
fn resolve_network_config_auto_mtu_follows_tun_mtu() {
    let file = ServerFileConfig {
        network_config: Some(block([10, 0, 0, 1], None)),
        ..empty_file()
    };
    let resolved = resolve_network_config(Some(&file), 1280, None, network()).ok().unwrap();
    assert_eq!(resolved.mtu, 1280);
}

#[test]
fn resolve_network_config_clamps_oversized_mtu() {
    let file = ServerFileConfig {
        network_config: Some(block([10, 0, 0, 1], Some(MtuSetting::Fixed(1400)))),
        ..empty_file()
    };
    let resolved = resolve_network_config(Some(&file), 1280, None, network()).ok().unwrap();
    assert_eq!(resolved.mtu, 1280);
}

#[test]
fn resolve_network_config_takes_single_settings() {
    let file = ServerFileConfig { tun_addr: Some([10, 9, 0, 1]), ..empty_file() };
    assert_eq!(netmask_in_use(&file), [255, 255, 255, 0]);
    let resolved = resolve_network_config(Some(&file), 1300, Some(20), network()).ok().unwrap();
    assert_eq!((resolved.server_vpn_ip, resolved.prefix_len), ([10, 9, 0, 1], 20));
    assert_eq!(resolved.mtu, 1300);
    assert_eq!(resolved.ipv6_prefix, "fd10:cafe::/48");
    assert!(matches!(
        resolve_network_config(Some(&file), 1300, None, network()),
        Err(BadNetmask)
    ));
    let none = resolve_network_config(None, 1300, None, network()).ok().unwrap();
    assert_eq!((none.server_vpn_ip, none.mtu), ([10, 0, 0, 1], DEFAULT_TUN_MTU));
    let masked = ServerFileConfig { tun_netmask: Some([255, 0, 0, 0]), ..empty_file() };
    assert_eq!(netmask_in_use(&masked), [255, 0, 0, 0]);
    assert_eq!(default_ipv6_prefix_str(), "fd10:cafe::/48");
}

#[test]
fn mtu_is_a_number_or_auto() {
    assert!(parse_mtu(MtuValue::Text("auto")) == Ok(MtuSetting::Auto));
    assert!(parse_mtu(MtuValue::Text("Auto")) == Err(MtuError::WrongKind));
    assert!(parse_mtu(MtuValue::Number(Some(65535))) == Ok(MtuSetting::Fixed(65535)));
    assert!(parse_mtu(MtuValue::Number(Some(65536))) == Err(MtuError::OutOfRange));
    assert!(parse_mtu(MtuValue::Number(None)) == Err(MtuError::OutOfRange));
    assert!(parse_mtu(MtuValue::Other) == Err(MtuError::WrongKind));
    assert_eq!(MtuError::OutOfRange.message(), "tun_mtu must be 0–65535");
    assert_eq!(MtuError::WrongKind.message(), "tun_mtu must be a number or \"auto\"");
}

#[test]
fn mtu_suits_the_network() {
    assert_eq!(mtu_inside(None), 1346);
    assert_eq!(mtu_inside(Some(1500)), 1436);
    assert_eq!(mtu_inside(Some(1400)), 1336);
    assert_eq!(mtu_inside(Some(9000)), 8936);
    assert_eq!(mtu_inside(Some(1000)), 936);
    assert_eq!(mtu_inside(Some(64)), 0);
    assert_eq!(mtu_inside(Some(10)), 0);
    assert_eq!(effective_mtu(Some(MtuSetting::Fixed(900)), 1336), 900);
    assert_eq!(effective_mtu(Some(MtuSetting::Auto), 1336), 1336);
    assert_eq!(effective_mtu(None, 1336), 1336);
}

#[test]
fn interface_is_read_off_the_route() {
    assert_eq!(
        route_device("1.1.1.1 via 192.168.1.1 dev eth0 src 192.168.1.5 uid 0"),
        text("eth0")
    );
    assert_eq!(route_device("default dev"), None);
    assert_eq!(route_device("dev dev eth1"), text("dev"));
    assert_eq!(route_device(""), None);
    assert_eq!(parse_interface_mtu("1500\n"), Some(1500));
    assert_eq!(parse_interface_mtu("70000"), None);
    assert_eq!(parse_interface_mtu("15x"), None);
    assert_eq!(parse_interface_mtu(" \n"), None);
}

#[test]
fn settings_file_is_looked_for_in_turn() {
    assert_eq!(resolve_config_path(&text("/a"), true, true), text("/a"));
    assert_eq!(resolve_config_path(&None, true, true), text("/etc/aivpn/server.json"));
    assert_eq!(resolve_config_path(&None, false, true), text("config/server.json"));
    assert_eq!(resolve_config_path(&None, false, false), None);
}

#[test]
fn command_line_comes_before_the_file() {
    assert_eq!(resolve_listen_addr(&None, &text("1.2.3.4:5")), "1.2.3.4:5");
    assert_eq!(resolve_listen_addr(&None, &None), "0.0.0.0:443");
    let given = text("0.0.0.0:8443");
    assert_eq!(resolve_listen_addr(&given, &text("1.2.3.4:5")), "0.0.0.0:8443");
    let usual = text("0.0.0.0:443");
    assert_eq!(resolve_listen_addr(&usual, &text("1.2.3.4:5")), "0.0.0.0:443");
    assert_eq!(resolve_mask_dir(&text("/a"), &text("/b")), "/a");
    assert_eq!(resolve_mask_dir(&None, &text("/b")), "/b");
    assert_eq!(resolve_mask_dir(&None, &None), "/var/lib/aivpn/masks");
    assert_eq!(first_setting(&None, &text("b")), text("b"));
    assert!(resolve_peer_routing(true, Some(false)));
    assert!(resolve_peer_routing(false, Some(true)));
    assert!(!resolve_peer_routing(false, None));
}

#[test]
fn masks_are_verified_as_the_settings_say() {
    let mode = |args, file| resolve_mask_verify_mode(&args, &file);
    assert!(mode(None, None) == Some(MaskVerifyMode::Warn));
    assert!(mode(text("off"), text("enforce")) == Some(MaskVerifyMode::Off));
    assert!(mode(None, text("enforce")) == Some(MaskVerifyMode::Enforce));
    assert!(mode(None, text("warn")) == Some(MaskVerifyMode::Warn));
    assert!(mode(None, text("strict")).is_none());
}

fn args() -> ServerArgs {
    ServerArgs {
        listen: None,
        tun_name: None,
        config: None,
        mask_dir: None,
        per_ip_pps_limit: 77,
        allow_peer_routing: false,
        mask_signing_key: None,
        mask_operator_pubkey: None,
        mask_verify_mode: None,
    }
}

fn inputs() -> ResolvedInputs {
    ResolvedInputs {
        random_tun_name: "tun42".to_string(),
        network_config: network(),
        server_private_key: [9; 32],
        bootstrap_masks: vec![],
        tun_mtu: 1300,
        mask_signing_key: Some([5; 32]),
        mask_operator_pubkey: None,
        mask_verify_mode: MaskVerifyMode::Enforce,
    }
}

#[test]
fn empty_file_leaves_the_defaults() {
    let config = assemble_config(&args(), empty_file(), inputs());
    assert_eq!(config.listen_addr, "0.0.0.0:443");
    assert_eq!((config.per_ip_pps_limit, config.tun_mtu), (77, 1300));
    assert_eq!(config.tun_name, "tun42");
    assert_eq!(config.mask_dir, "/var/lib/aivpn/masks");
    assert!(config.enable_nat && config.enable_neural && config.downlink_shaping);
    assert!(!config.exit_node_enabled && !config.allow_peer_routing);
    assert_eq!(config.feedback_report_failure_threshold, 3);
    assert_eq!(config.feedback_report_interval_secs, 3600);
    assert!(!config.polymorphic_all_sessions && config.polymorphic_base_mask.is_none());
    assert_eq!((config.server_private_key, config.mask_signing_key), ([9; 32], Some([5; 32])));
    assert!(config.mask_verify_mode == MaskVerifyMode::Enforce);
}

#[test]
fn file_settings_are_taken_over() {
    let file = ServerFileConfig {
        tun_name: text("vpn0"),
        session_timeout_secs: Some(10),
        idle_timeout_secs: Some(11),
        exit_node_enabled: Some(true),
        allow_peer_routing: Some(true),
        downlink_shaping: Some(false),
        neural_enabled: Some(false),
        bootstrap_publish: Some(BootstrapPublishConfig { enabled: true, channels: vec![] }),
        feedback: Some(FeedbackFileConfig {
            report_failure_threshold: Some(7),
            report_interval_secs: None,
        }),
        polymorphic: Some(PolymorphicFileConfig {
            all_sessions: true,
            base_mask: text("webrtc_zoom_v3"),
        }),
        ..empty_file()
    };
    let config = assemble_config(&args(), file, inputs());
    assert_eq!(config.tun_name, "vpn0");
    assert_eq!((config.session_timeout_secs, config.idle_timeout_secs), (Some(10), Some(11)));
    assert!(config.exit_node_enabled && config.allow_peer_routing);
    assert!(!config.enable_neural && !config.downlink_shaping);
    assert!(config.bootstrap_publish.unwrap().enabled);
    assert_eq!(config.feedback_report_failure_threshold, 7);
    assert_eq!(config.feedback_report_interval_secs, 3600);
    assert!(config.polymorphic_all_sessions);
    assert_eq!(config.polymorphic_base_mask, text("webrtc_zoom_v3"));
}

#[test]
fn default_settings_are_usable() {
    let config = GatewayConfig::default();
    assert_eq!(config.listen_addr, "0.0.0.0:443");
    assert_eq!(config.per_ip_pps_limit, 1000);
    assert_eq!(config.network_config.prefix_len, 24);
}

#[test]
fn keys_are_read_in_base64() {
    let standard = base64::engine::general_purpose::STANDARD;
    let good = format!("  {}\n", standard.encode([6; 32]));
    assert!(parse_key_text(&good) == Ok([6; 32]));
    assert!(parse_key_text("!!") == Err(KeyError::NotBase64));
    assert!(parse_key_text(&standard.encode([6; 31])) == Err(KeyError::WrongLength(31)));
    assert!(key_of_decoded(None) == Err(KeyError::NotBase64));
    assert!(key_of_decoded(Some(vec![1; 33])) == Err(KeyError::WrongLength(33)));
    assert!(parse_signing_seed(&[7; 32], "ignored") == Ok([7; 32]));
    assert!(parse_signing_seed(good.as_bytes(), &good) == Ok([6; 32]));
    assert_eq!(key_of(&[1; 32]), Some([1; 32]));
    assert_eq!(key_of(&[1; 31]), None);
}

#[test]
fn masks_are_verified_with_the_given_key_or_the_signer_s() {
    let standard = base64::engine::general_purpose::STANDARD;
    let given = Some(standard.encode([6; 32]));
    assert!(resolve_mask_operator_pubkey(&given, &None, Some([1; 32])) == Ok(Some([6; 32])));
    assert!(resolve_mask_operator_pubkey(&None, &given, None) == Ok(Some([6; 32])));
    assert!(resolve_mask_operator_pubkey(&None, &None, None) == Ok(None));
    assert!(
        resolve_mask_operator_pubkey(&text("?"), &given, None) == Err(KeyError::NotBase64)
    );
    let public = ed25519_dalek::SigningKey::from_bytes(&[1; 32]).verifying_key().to_bytes();
    assert!(resolve_mask_operator_pubkey(&None, &None, Some([1; 32])) == Ok(Some(public)));
}

#[test]
fn pool_key_is_not_blank() {
    let standard = base64::engine::general_purpose::STANDARD;
    assert_eq!(pool_sync_key(&standard.encode([7; 32])), Some([7; 32]));
    assert_eq!(pool_sync_key(&standard.encode([0; 32])), None);
    assert_eq!(pool_sync_key(&standard.encode([7; 16])), None);
    assert_eq!(pool_sync_key("not base64"), None);
    let mut last = [0; 32];
    last[31] = 1;
    assert_eq!(pool_sync_key(&standard.encode(last)), Some(last));
}

#[test]
fn keys_are_read_in_hexadecimal() {
    let bytes: Vec<u8> = (200..232).collect();
    let lower = hex::encode(&bytes);
    assert_eq!(parse_key_hex(&lower).unwrap().to_vec(), bytes);
    assert_eq!(parse_key_hex(&lower.to_uppercase()).unwrap().to_vec(), bytes);
    assert_eq!(parse_key_hex(&lower[1..]), None);
    assert_eq!(parse_key_hex(&lower.replace('c', "g")), None);
}

#[test]
fn certificates_last_for_days() {
    assert_eq!(cert_expiry(1_999, 2), 172_801);
}

fn in_doubles(bytes: u64) -> String {
    const KB: u64 = 1024;
    const MB: u64 = 1024 * KB;
    const GB: u64 = 1024 * MB;
    if bytes >= GB {
        format!("{:.1} GB", bytes as f64 / GB as f64)
    } else if bytes >= MB {
        format!("{:.1} MB", bytes as f64 / MB as f64)
    } else if bytes >= KB {
        format!("{:.1} KB", bytes as f64 / KB as f64)
    } else {
        format!("{} B", bytes)
    }
}

#[test]
fn bytes_are_written_for_people() {
    assert_eq!(format_bytes(0), "0 B");
    assert_eq!(format_bytes(1023), "1023 B");
    assert_eq!(format_bytes(1536), "1.5 KB");
    assert_eq!(format_bytes(5 << 20), "5.0 MB");
    assert_eq!(format_bytes(u64::MAX), "17179869184.0 GB");
    let mut n: u64 = 1;
    for i in 0..200_000u64 {
        n = n.wrapping_mul(6364136223846793005).wrapping_add(1442695040888963407);
        let bytes = n >> (i % 64);
        assert_eq!(format_bytes(bytes), in_doubles(bytes));
    }
    for edge in [1u64 << 53, (1 << 53) + 1, (1 << 54) + 2, (1 << 54) + 6, u64::MAX - 1024] {
        assert_eq!(format_bytes(edge), in_doubles(edge));
    }
    for step in 0..4096u64 {
        let bytes = 1024 + step * 13;
        assert_eq!(format_bytes(bytes), in_doubles(bytes));
    }
}

#[test]
fn written_keys_are_read_back() {
    let key: [u8; 32] = core::array::from_fn(|i| (i * 9) as u8);
    let text = key_in_base64(&key);
    assert_eq!(text, "AAkSGyQtNj9IUVpjbHV+h5CZoqu0vcbP2OHq8/wFDhc=");
    assert!(parse_signing_seed(text.as_bytes(), &text) == Ok(key));
    let hex = key_in_hex(&key);
    assert_eq!(hex, "0009121b242d363f48515a636c757e879099a2abb4bdc6cfd8e1eaf3fc050e17");
    assert!(parse_key_hex(&hex) == Some(key));
}
