use aivpn_server::bootstrap::{
    bootstrap_epoch, build_bootstrap_descriptor, build_bootstrap_descriptors,
    derive_server_signing_key, epoch_turned, load_bootstrap_masks, sign_bootstrap_descriptor,
    MaskFile, ParsedMasks, BOOTSTRAP_EPOCH_WINDOW, BOOTSTRAP_ROTATION_SECS,
};
use aivpn_server::layout::{MaskProfile, TAG_IN_FRONT};
use aivpn_server::publish::{
    asset_url, bearer, create_release_url, release_target, release_url, s3_request_at, sha256_hex,
    sign_s3_request, telegram_url, upload_url, BootstrapPublishConfig, PublishAction,
    PublishChannel, PublishRun, ReleaseAsset, ReleaseInfo, S3Settings,
};
use ed25519_dalek::{Signature, VerifyingKey};
use hmac::{Hmac, Mac};
use sha2::{Digest, Sha256};

fn profile(id: &str) -> MaskProfile {
    MaskProfile {
        mask_id: id.to_string(),
        header_template: vec![0; 20],
        header_min_length: None,
        eph_pub_offset: 20,
        eph_pub_length: 32,
        tag_offset: TAG_IN_FRONT,
        generated: false,
    }
}

#[test]
fn bootstrap_descriptor_window_covers_recent_epochs() {
    let seed = [7u8; 32];
    let masks = vec![profile("webrtc_zoom_v3")];
    let now = std::time::SystemTime::now()
        .duration_since(std::time::UNIX_EPOCH)
        .unwrap()
        .as_secs();
    let descriptors = build_bootstrap_descriptors(&seed, &vec![], &masks, now);
    let epoch = bootstrap_epoch(now);
    let expected: Vec<String> = BOOTSTRAP_EPOCH_WINDOW
        .iter()
        .map(|delta| {
            let value = if *delta < 0 {
                epoch.saturating_sub(delta.unsigned_abs())
            } else {
                epoch.saturating_add(*delta as u64)
            };
            format!("epoch-{}", value)
        })
        .collect();
    let got: Vec<String> = descriptors.iter().map(|d| d.descriptor_id.clone()).collect();
    assert_eq!(got, expected, "descriptor window must be epoch-2..=epoch+1");
    assert_eq!(descriptors.len(), 4);
    assert!(got.contains(&format!("epoch-{}", epoch.saturating_sub(2))));
}

#[test]
fn descriptor_names_presets_or_carries_masks() {
    let seed = [7u8; 32];
    let presets = vec!["p1".to_string(), "p2".to_string()];
    let plain = build_bootstrap_descriptor(&seed, 20_000, &presets, &vec![]);
    assert_eq!(plain.base_mask_ids, presets);
    assert!(plain.embedded_masks.is_empty());
    assert_eq!((plain.version, plain.candidate_count), (1, 4));
    assert_eq!(plain.created_at, 20_000 * BOOTSTRAP_ROTATION_SECS);
    assert_eq!(plain.expires_at - plain.created_at, 172_800);
    assert_eq!(plain.signature, [0; 64]);
    let carrying = build_bootstrap_descriptor(&seed, 20_000, &presets, &vec![profile("m")]);
    assert!(carrying.base_mask_ids.is_empty());
    assert_eq!(carrying.embedded_masks[0].mask_id, "m");
}

#[test]
fn salt_follows_from_seed_and_epoch() {
    let seed = [7u8; 32];
    let d = build_bootstrap_descriptor(&seed, 20_000, &vec![], &vec![]);
    assert_eq!(d.kdf_salt, *blake3::keyed_hash(&seed, &20_000u64.to_le_bytes()).as_bytes());
    let next = build_bootstrap_descriptor(&seed, 20_001, &vec![], &vec![]);
    assert_ne!(d.kdf_salt, next.kdf_salt);
}

#[test]
fn signature_verifies_with_the_server_key() {
    let key = derive_server_signing_key(&[7u8; 32]);
    assert_eq!(key.seed, blake3::derive_key("aivpn-ed25519-signing-v1", &[7u8; 32]));
    let d = build_bootstrap_descriptor(&[7u8; 32], 20_000, &vec!["p".to_string()], &vec![]);
    let signed = sign_bootstrap_descriptor(d, b"these bytes", &key);
    let public = VerifyingKey::from_bytes(&key.verifying_key()).unwrap();
    let signature = Signature::from_bytes(&signed.signature);
    assert!(public.verify_strict(b"these bytes", &signature).is_ok());
    assert!(public.verify_strict(b"other bytes", &signature).is_err());
    assert_eq!(signed.descriptor_id, "epoch-20000");
    assert_eq!(signed.base_mask_ids, vec!["p".to_string()]);
}

#[test]
fn early_epochs_do_not_run_below_zero() {
    let ids: Vec<String> = build_bootstrap_descriptors(&[1; 32], &vec![], &vec![], 90_000)
        .iter()
        .map(|d| d.descriptor_id.clone())
        .collect();
    assert_eq!(ids, vec!["epoch-0", "epoch-0", "epoch-1", "epoch-2"]);
}

#[test]
fn epoch_turns_once_a_day() {
    let mut last = bootstrap_epoch(86_400 * 10);
    assert!(!epoch_turned(&mut last, 86_400 * 11 - 1));
    assert!(epoch_turned(&mut last, 86_400 * 11));
    assert!(!epoch_turned(&mut last, 86_400 * 11 + 5));
    assert_eq!(last, 11);
}

fn one(value: &serde_json::Value) -> Option<MaskProfile> {
    Some(profile(value.get("mask_id")?.as_str()?))
}

fn file(name: &str, text: &str) -> MaskFile {
    let parsed = match serde_json::from_str::<serde_json::Value>(text) {
        Ok(serde_json::Value::Array(list)) => {
            match list.iter().map(one).collect::<Option<Vec<_>>>() {
                Some(masks) => ParsedMasks::Many(masks),
                None => ParsedMasks::Neither,
            }
        }
        Ok(value) => match one(&value) {
            Some(mask) => ParsedMasks::One(mask),
            None => ParsedMasks::Neither,
        },
        Err(_) => ParsedMasks::Neither,
    };
    MaskFile { name: name.to_string(), text: Ok(text.to_string()), parsed }
}

fn ids(masks: Result<Vec<MaskProfile>, String>) -> Result<Vec<String>, String> {
    masks.map(|list| list.into_iter().map(|m| m.mask_id).collect())
}

#[test]
fn load_bootstrap_masks_handles_empty_file() {
    let result = ids(load_bootstrap_masks(&vec![file("empty.json", "")]));
    assert!(result.is_ok());
    assert!(result.unwrap().is_empty());
}

#[test]
fn load_bootstrap_masks_handles_empty_array() {
    let result = ids(load_bootstrap_masks(&vec![file("array.json", "[]")]));
    assert!(result.is_ok());
    assert!(result.unwrap().is_empty());
}

#[test]
fn load_bootstrap_masks_handles_single_object() {
    let text = r#"{"mask_id": "test_mask", "version": 2, "spoof_protocol": "QUIC"}"#;
    let result = ids(load_bootstrap_masks(&vec![file("single.json", text)]));
    assert!(result.is_ok());
    let masks = result.unwrap();
    assert_eq!(masks.len(), 1);
    assert_eq!(masks[0], "test_mask");
}

#[test]
fn load_bootstrap_masks_handles_array_of_objects() {
    let text = r#"[{"mask_id": "mask1", "version": 2}, {"mask_id": "mask2", "version": 2}]"#;
    let result = ids(load_bootstrap_masks(&vec![file("array.json", text)]));
    assert!(result.is_ok());
    let masks = result.unwrap();
    assert_eq!(masks.len(), 2);
    assert_eq!(masks[0], "mask1");
    assert_eq!(masks[1], "mask2");
}

#[test]
fn first_bad_file_of_masks_is_the_error() {
    let good = || file("a.json", r#"{"mask_id": "a"}"#);
    let blank = || file("blank.json", " \n\t ");
    let bad = || file("bad.json", "{}");
    let gone = || MaskFile {
        name: "gone.json".to_string(),
        text: Err("No such file".to_string()),
        parsed: ParsedMasks::Neither,
    };
    assert_eq!(ids(load_bootstrap_masks(&vec![good(), blank(), good()])), Ok(vec!["a".to_string(); 2]));
    assert_eq!(
        ids(load_bootstrap_masks(&vec![good(), bad(), gone()])),
        Err(
            "bad.json: invalid JSON format, expected MaskProfile object or array of MaskProfile \
             objects"
                .to_string()
        )
    );
    assert_eq!(
        ids(load_bootstrap_masks(&vec![gone(), bad()])),
        Err("gone.json: No such file".to_string())
    );
}

fn channels(n: usize, enabled: bool) -> BootstrapPublishConfig {
    let channel =
        || PublishChannel::Telegram { bot_token: "t".to_string(), chat_id: "c".to_string() };
    BootstrapPublishConfig { enabled, channels: (0..n).map(|_| channel()).collect() }
}

#[test]
fn channels_are_retried_then_passed_over() {
    let (mut run, action) = PublishRun::start(&channels(2, true));
    assert!(action == PublishAction::Attempt { channel: 0 });
    for secs in [5, 30, 120] {
        assert!(run.attempted(false) == PublishAction::RetryAfter { channel: 0, secs });
    }
    assert!(run.attempted(false) == PublishAction::Attempt { channel: 1 });
    assert!(run.attempted(false) == PublishAction::RetryAfter { channel: 1, secs: 5 });
    assert!(run.attempted(true) == PublishAction::Finished);
}

#[test]
fn nothing_is_published_where_that_is_off() {
    assert!(PublishRun::start(&channels(2, false)).1 == PublishAction::Finished);
    assert!(PublishRun::start(&channels(0, true)).1 == PublishAction::Finished);
    let default = BootstrapPublishConfig::default();
    assert!(!default.enabled && default.channels.is_empty());
    assert_eq!(channels(1, true).channels[0].label(), "telegram");
}

const S3: S3Settings = S3Settings {
    endpoint: "https://s3.example.com//",
    region: "us-east-1",
    bucket: "bucket",
    key: "dir/descriptors.json",
    access_key: "AK",
    secret_key: "secret",
};

fn mac(key: &[u8], data: &str) -> Vec<u8> {
    let mut m = <Hmac<Sha256> as Mac>::new_from_slice(key).unwrap();
    m.update(data.as_bytes());
    m.finalize().into_bytes().to_vec()
}

#[test]
fn object_store_request_is_signed() {
    let payload = "{\"descriptors\":[]}";
    let r = sign_s3_request(payload, &S3, "20150830T123600Z", "20150830");
    let hash = hex::encode(Sha256::digest(payload.as_bytes()));
    assert_eq!(r.url, "https://s3.example.com/bucket/dir/descriptors.json");
    assert_eq!(r.host, "s3.example.com");
    assert_eq!(r.payload_hash, hash);
    assert_eq!(r.amz_date, "20150830T123600Z");
    let request = format!(
        "PUT\n/bucket/dir/descriptors.json\n\nhost:s3.example.com\nx-amz-content-sha256:{hash}\n\
         x-amz-date:20150830T123600Z\n\nhost;x-amz-content-sha256;x-amz-date\n{hash}"
    );
    let scope = "20150830/us-east-1/s3/aws4_request";
    let to_sign = format!(
        "AWS4-HMAC-SHA256\n20150830T123600Z\n{scope}\n{}",
        hex::encode(Sha256::digest(request.as_bytes()))
    );
    let key = mac(b"AWS4secret", "20150830");
    let key = mac(&mac(&mac(&key, "us-east-1"), "s3"), "aws4_request");
    assert_eq!(
        r.authorization,
        format!(
            "AWS4-HMAC-SHA256 Credential=AK/{scope}, \
             SignedHeaders=host;x-amz-content-sha256;x-amz-date, Signature={}",
            hex::encode(mac(&key, &to_sign))
        )
    );
}

#[test]
fn hosts_are_read_off_endpoints() {
    let host = |endpoint| {
        sign_s3_request("", &S3Settings { endpoint, ..S3 }, "d", "d").host
    };
    assert_eq!(host("http://a.b:9000/"), "a.b:9000");
    assert_eq!(host("a.b"), "a.b");
    assert_eq!(host("/"), "");
}

#[test]
fn request_carries_the_date_of_its_time() {
    let at = s3_request_at("x", &S3, 1_431_648_000).unwrap();
    let given = sign_s3_request("x", &S3, "20150515T000000Z", "20150515");
    assert_eq!(at.amz_date, "20150515T000000Z");
    assert_eq!(at.authorization, given.authorization);
    assert!(s3_request_at("x", &S3, i64::MAX).is_none());
}

#[test]
fn digest_is_written_in_hexadecimal() {
    assert_eq!(
        sha256_hex(b"abc"),
        "ba7816bf8f01cfea414140de5dae2223b00361a396177a9cb410ff61f20015ad"
    );
}

#[test]
fn github_addresses_are_built() {
    assert_eq!(
        release_url("o/r", "v1"),
        "https://api.github.com/repos/o/r/releases/tags/v1"
    );
    assert_eq!(create_release_url("o/r"), "https://api.github.com/repos/o/r/releases");
    assert_eq!(asset_url("o/r", 42), "https://api.github.com/repos/o/r/releases/assets/42");
    assert_eq!(bearer("tok"), "Bearer tok");
    assert_eq!(
        upload_url("https://uploads.github.com/x/assets{?name,label}", "d.json"),
        "https://uploads.github.com/x/assets?name=d.json"
    );
    assert_eq!(upload_url("https://u/x", "d"), "https://u/x?name=d");
    assert_eq!(telegram_url("123:abc"), "https://api.telegram.org/bot123:abc/sendDocument");
}

fn asset(name: Option<&str>, id: Option<u64>) -> ReleaseAsset {
    ReleaseAsset { name: name.map(|n| n.to_string()), id }
}

fn release(id: Option<u64>, url: Option<&str>) -> ReleaseInfo {
    ReleaseInfo {
        id,
        upload_url: url.map(|u| u.to_string()),
        assets: vec![
            asset(None, Some(1)),
            asset(Some("other"), Some(2)),
            asset(Some("d.json"), Some(3)),
            asset(Some("d.json"), Some(4)),
        ],
    }
}

#[test]
fn old_asset_makes_room_for_the_new() {
    let target = release_target(release(Some(9), Some("u")), "d.json", false).ok().unwrap();
    assert_eq!((target.upload_url.as_str(), target.stale_asset), ("u", Some(3)));
    let target = release_target(release(Some(9), Some("u")), "d.json", true).ok().unwrap();
    assert_eq!(target.stale_asset, None);
    let target = release_target(release(Some(9), Some("u")), "e.json", false).ok().unwrap();
    assert_eq!(target.stale_asset, None);
    let error = |id, url, created| release_target(release(id, url), "d.json", created).err();
    assert_eq!(error(None, None, false), Some("GitHub release response missing id"));
    assert_eq!(error(Some(9), None, false), Some("GitHub release response missing upload_url"));
    assert_eq!(error(None, Some("u"), true), Some("GitHub create-release response missing id"));
    assert_eq!(
        error(Some(9), None, true),
        Some("GitHub create-release response missing upload_url")
    );
}
