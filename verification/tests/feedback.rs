use aivpn_server::feedback_map::{
    CountryBuckets, FeedbackMap, MaskBucket, MaskEntry, MAX_BUCKETS, MAX_BUCKETS_PER_COUNTRY,
};
use aivpn_server::hints::{capped_score, Hint, Score, MAX_VOTES_PER_REPORTER};
use aivpn_server::hll::Hll;
use aivpn_server::mask_feedback::{
    MaskFeedbackStore, MaskOutcome, DEFAULT_K_ANON, DEFAULT_RETENTION_HOURS, MAX_MASK_ID_LEN,
    MAX_REPORT_ENTRIES, REGIONAL_HINTS_CACHE_TTL,
};

const HOUR: u64 = 480_000;
const NOW: u64 = 3_600_000_000_000;

fn outcome(mask_id: &str, success: u16, fail: u16) -> MaskOutcome {
    MaskOutcome { mask_id: mask_id.to_string(), success, fail }
}

fn get_bucket<'a>(map: &'a FeedbackMap, country: &[u8; 2], mask_id: &str) -> Option<&'a MaskBucket> {
    map.bucket(country, &mask_id.to_string())
}

fn put_bucket(map: &mut FeedbackMap, country: [u8; 2], mask_id: &str, bucket: MaskBucket) {
    let entry = MaskEntry { mask_id: mask_id.to_string(), bucket };
    match map.countries.iter_mut().find(|c| c.code == country) {
        Some(c) => c.masks.push(entry),
        None => map.countries.push(CountryBuckets { code: country, masks: vec![entry] }),
    }
}

fn edit_bucket<'a>(map: &'a mut FeedbackMap, country: &[u8; 2], mask_id: &str) -> &'a mut MaskBucket {
    let c = map.countries.iter_mut().find(|c| c.code == *country).unwrap();
    &mut c.masks.iter_mut().find(|m| m.mask_id == mask_id).unwrap().bucket
}

fn len_of(map: &FeedbackMap, country: &[u8; 2]) -> usize {
    map.countries.iter().find(|c| c.code == *country).map(|c| c.masks.len()).unwrap_or(0)
}

fn ratio(score: &Score) -> f32 {
    if score.success + score.fail == 0 {
        return 0.0;
    }
    score.success as f32 / (score.success + score.fail) as f32
}

fn bucket_at_hour(hour: u64) -> MaskBucket {
    let mut bucket = MaskBucket::new();
    bucket.last_updated_hour = hour;
    bucket
}

fn named(hints: &[Hint]) -> Vec<(String, Score)> {
    hints.iter().map(|h| (h.mask_id.clone(), h.score)).collect()
}

#[test]
fn hll_estimate_within_tolerance_for_100_distinct_tokens() {
    let mut hll = Hll::new();
    for i in 0..100u32 {
        hll.add(&i.to_le_bytes());
    }
    let est = hll.estimate();
    assert!((90u64..=110u64).contains(&est), "estimate {} not within 10% of 100", est);
}

#[test]
fn hll_estimate_within_tolerance_for_1000_distinct_tokens() {
    let mut hll = Hll::new();
    for i in 0..1000u32 {
        hll.add(&i.to_le_bytes());
    }
    let est = hll.estimate();
    assert!((900u64..=1100u64).contains(&est), "estimate {} not within 10% of 1000", est);
}

#[test]
fn hll_repeated_token_does_not_inflate_estimate() {
    let mut hll = Hll::new();
    for _ in 0..500 {
        hll.add(b"same-token-every-time");
    }
    assert!(hll.estimate() <= 3, "repeated token should stay near 1");
}

#[test]
fn hll_merge_matches_union_estimate() {
    let mut a = Hll::new();
    let mut b = Hll::new();
    for i in 0..500u32 {
        a.add(&i.to_le_bytes());
    }
    for i in 500..1000u32 {
        b.add(&i.to_le_bytes());
    }
    let mut merged = Hll::new();
    merged.merge(&a);
    merged.merge(&b);
    let mut union = Hll::new();
    for i in 0..1000u32 {
        union.add(&i.to_le_bytes());
    }
    let diff = (merged.estimate() as i64 - union.estimate() as i64).abs();
    assert!(diff <= 5, "merged vs union estimate diverged: {}", diff);
    assert!(merged.registers()[..] == union.registers()[..]);
}

fn estimate_in_doubles(registers: &[u8]) -> u64 {
    let m = 1024.0f64;
    let alpha = 0.7213 / (1.0 + 1.079 / m);
    let sum: f64 = registers.iter().map(|&r| 2f64.powi(-(r as i32))).sum();
    let raw = alpha * m * m / sum;
    if raw <= 2.5 * m {
        let zeros = registers.iter().filter(|&&r| r == 0).count();
        if zeros > 0 {
            return (m * (m / zeros as f64).ln()).round() as u64;
        }
    }
    raw.round() as u64
}

#[test]
fn hll_estimate_is_that_of_the_usual_formula() {
    let mut hll = Hll::new();
    assert_eq!(hll.estimate(), 0);
    for i in 0..20_000u32 {
        hll.add(&i.to_le_bytes());
        if i % 97 == 0 {
            assert_eq!(hll.estimate(), estimate_in_doubles(hll.registers()));
        }
    }
}

#[test]
fn hll_token_reaches_the_register_that_its_digest_names() {
    let token = b"token";
    let digest = blake3::hash(token);
    let word = u64::from_le_bytes(digest.as_bytes()[..8].try_into().unwrap());
    let rest = word >> 10;
    let rank = if rest == 0 { 55 } else { rest.trailing_zeros() as u8 + 1 };
    let mut hll = Hll::new();
    hll.add(token);
    for (i, &r) in hll.registers().iter().enumerate() {
        assert_eq!(r, if i as u64 == word % 1024 { rank } else { 0 });
    }
}

#[test]
fn reporter_token_is_salted_differently_per_store() {
    let mut store_a = MaskFeedbackStore::new();
    let mut store_b = MaskFeedbackStore::new();
    for i in 0..30u32 {
        let token = format!("reporter-{i}");
        store_a.record_feedback(*b"US", token.as_bytes(), &[outcome("mask_a", 1, 0)], HOUR);
        store_b.record_feedback(*b"US", token.as_bytes(), &[outcome("mask_a", 1, 0)], HOUR);
    }
    let regs_a = get_bucket(&store_a.buckets, b"US", "mask_a").unwrap().reporters.registers();
    let regs_b = get_bucket(&store_b.buckets, b"US", "mask_a").unwrap().reporters.registers();
    assert!(regs_a[..] != regs_b[..]);
}

#[test]
fn salted_hll_still_counts_distinct_reporters_correctly() {
    let mut store = MaskFeedbackStore::with_k_anon(1);
    for i in 0..25u32 {
        let token = format!("reporter-{i}");
        store.record_feedback(*b"US", token.as_bytes(), &[outcome("mask_a", 1, 0)], HOUR);
    }
    let estimate = get_bucket(&store.buckets, b"US", "mask_a").unwrap().reporters.estimate();
    assert!(
        (20..=30).contains(&estimate),
        "salted estimate {} should still be close to the true 25 distinct reporters",
        estimate
    );
}

#[test]
fn record_feedback_ignores_empty_entries() {
    let mut store = MaskFeedbackStore::new();
    store.record_feedback(*b"US", b"reporter-1", &[], HOUR);
    assert!(store.top_masks_for_region(*b"US", NOW).is_empty());
    assert_eq!(store.k_anon, DEFAULT_K_ANON);
}

#[test]
fn top_masks_hidden_below_k_anon_threshold() {
    let mut store = MaskFeedbackStore::with_k_anon(20);
    for i in 0..5u32 {
        let token = format!("reporter-{i}");
        store.record_feedback(*b"US", token.as_bytes(), &[outcome("webrtc_zoom_v3", 10, 0)], HOUR);
    }
    assert!(store.top_masks_for_region(*b"US", NOW).is_empty());
}

#[test]
fn top_masks_surfaced_once_k_anon_met() {
    let mut store = MaskFeedbackStore::with_k_anon(20);
    for i in 0..25u32 {
        let token = format!("reporter-{i}");
        let vote = if i < 23 { outcome("quic_https", 1, 0) } else { outcome("quic_https", 0, 1) };
        store.record_feedback(*b"DE", token.as_bytes(), &[vote], HOUR);
    }
    let top = store.top_masks_for_region(*b"DE", NOW);
    assert_eq!(top.len(), 1);
    assert_eq!(top[0].mask_id, "quic_https");
    assert!((ratio(&top[0].score) - 0.9).abs() < 0.05);
}

#[test]
fn sparse_country_rolls_up_to_continent_when_threshold_met() {
    let mut store = MaskFeedbackStore::with_k_anon(20);
    for i in 0..12u32 {
        let token = format!("pt-reporter-{i}");
        store.record_feedback(*b"PT", token.as_bytes(), &[outcome("mask_a", 5, 5)], HOUR);
    }
    for i in 0..12u32 {
        let token = format!("ie-reporter-{i}");
        store.record_feedback(*b"IE", token.as_bytes(), &[outcome("mask_a", 5, 5)], HOUR);
    }
    assert!(!store.top_masks_for_region(*b"PT", NOW).is_empty());
    let top = store.top_masks_for_region(*b"PT", NOW);
    assert_eq!(top[0].mask_id, "mask_a");
}

#[test]
fn unknown_country_code_has_no_rollup_benefit() {
    let mut store = MaskFeedbackStore::with_k_anon(20);
    for i in 0..5u32 {
        let token = format!("zz-reporter-{i}");
        store.record_feedback(*b"ZZ", token.as_bytes(), &[outcome("mask_a", 5, 5)], HOUR);
    }
    assert!(store.top_masks_for_region(*b"ZZ", NOW).is_empty());
}

#[test]
fn bucket_and_region_count_track_store_growth() {
    let mut store = MaskFeedbackStore::new();
    assert_eq!(store.bucket_count(), 0);
    assert_eq!(store.region_count(), 0);
    store.record_feedback(*b"US", b"reporter-1", &[outcome("mask_a", 1, 0)], HOUR);
    assert_eq!(store.bucket_count(), 1);
    assert_eq!(store.region_count(), 1);
    store.record_feedback(*b"DE", b"reporter-2", &[outcome("mask_b", 1, 0)], HOUR);
    assert_eq!(store.bucket_count(), 2);
    assert_eq!(store.region_count(), 2);
    store.record_feedback(*b"US", b"reporter-3", &[outcome("mask_a", 1, 0)], HOUR);
    assert_eq!(store.bucket_count(), 2);
    assert_eq!(store.region_count(), 2);
}

#[test]
fn oversized_mask_id_is_rejected() {
    let mut store = MaskFeedbackStore::new();
    let huge_id = "x".repeat(MAX_MASK_ID_LEN + 1);
    store.record_feedback(*b"US", b"reporter-1", &[outcome(&huge_id, 1, 0)], HOUR);
    assert_eq!(store.buckets.total_buckets, 0, "oversized mask_id must not create a bucket");
    assert!(store.buckets.countries.is_empty());
}

#[test]
fn mask_id_at_max_length_is_accepted() {
    let mut store = MaskFeedbackStore::new();
    let max_id = "x".repeat(MAX_MASK_ID_LEN);
    store.record_feedback(*b"US", b"reporter-1", &[outcome(&max_id, 1, 0)], HOUR);
    assert_eq!(store.buckets.total_buckets, 1);
}

#[test]
fn bucket_count_is_capped_at_scale() {
    let mut store = MaskFeedbackStore::new();
    let countries: Vec<[u8; 2]> =
        (0..(MAX_BUCKETS / MAX_BUCKETS_PER_COUNTRY) as u8).map(|i| [b'A', b'A' + i]).collect();
    for country in &countries {
        for i in 0..MAX_BUCKETS_PER_COUNTRY {
            put_bucket(&mut store.buckets, *country, &format!("mask-{i}"), bucket_at_hour(i as u64));
        }
    }
    store.buckets.total_buckets = MAX_BUCKETS;
    let target_country = countries[0];
    store.record_feedback(target_country, b"reporter-1", &[outcome("brand-new-mask", 1, 0)], HOUR);
    let map = &store.buckets;
    assert!(
        map.total_buckets <= MAX_BUCKETS,
        "bucket count must never exceed MAX_BUCKETS (was {})",
        map.total_buckets
    );
    assert!(
        get_bucket(map, &target_country, "brand-new-mask").is_some(),
        "new report should have been accepted after eviction"
    );
    for country in &countries {
        let len = len_of(map, country);
        assert!(
            len <= MAX_BUCKETS_PER_COUNTRY,
            "country {:?} must never exceed MAX_BUCKETS_PER_COUNTRY (was {})",
            country,
            len
        );
    }
}

#[test]
fn per_country_bucket_cap_prevents_single_country_concentration() {
    let mut store = MaskFeedbackStore::new();
    for i in 0..MAX_BUCKETS_PER_COUNTRY {
        put_bucket(&mut store.buckets, *b"US", &format!("mask-{i}"), bucket_at_hour(i as u64));
    }
    store.buckets.total_buckets = MAX_BUCKETS_PER_COUNTRY;
    store.record_feedback(*b"US", b"reporter-1", &[outcome("brand-new-us-mask", 1, 0)], HOUR);
    store.record_feedback(*b"DE", b"reporter-2", &[outcome("de-mask", 1, 0)], HOUR);
    let map = &store.buckets;
    assert_eq!(
        len_of(map, b"US"),
        MAX_BUCKETS_PER_COUNTRY,
        "US bucket count must stay pinned at the per-country cap, not grow past it"
    );
    assert!(
        get_bucket(map, b"US", "brand-new-us-mask").is_some(),
        "new US report must still be accepted after within-country eviction"
    );
    assert!(
        get_bucket(map, b"DE", "de-mask").is_some(),
        "DE must be entirely unaffected by US's per-country cap"
    );
    assert!(MAX_BUCKETS_PER_COUNTRY < MAX_BUCKETS);
}

#[test]
fn eviction_picks_least_recently_updated_within_sample() {
    let mut store = MaskFeedbackStore::new();
    let hours = [(*b"US", "old", 1u64), (*b"US", "mid", 50), (*b"DE", "new", 100)];
    for (country, mask_id, hour) in hours {
        put_bucket(&mut store.buckets, country, mask_id, bucket_at_hour(hour));
    }
    store.buckets.total_buckets = MAX_BUCKETS;
    store.record_feedback(*b"FR", b"reporter-1", &[outcome("newest", 1, 0)], HOUR);
    let map = &store.buckets;
    assert!(
        get_bucket(map, b"US", "old").is_none(),
        "the globally oldest bucket in the (small) sample must be evicted"
    );
    assert!(get_bucket(map, b"US", "mid").is_some());
    assert!(get_bucket(map, b"DE", "new").is_some());
    assert!(get_bucket(map, b"FR", "newest").is_some());
    assert_eq!(map.total_buckets, MAX_BUCKETS);
}

#[test]
fn sweep_stale_removes_old_buckets_but_keeps_recent_ones() {
    let mut store = MaskFeedbackStore::new();
    store.record_feedback(*b"US", b"reporter-1", &[outcome("old-mask", 1, 0)], HOUR);
    edit_bucket(&mut store.buckets, b"US", "old-mask").last_updated_hour = 0;
    store.record_feedback(*b"US", b"reporter-2", &[outcome("fresh-mask", 1, 0)], HOUR);
    let removed = store.sweep_stale(1000, DEFAULT_RETENTION_HOURS, NOW);
    assert_eq!(removed, 1, "only the backdated bucket should be swept");
    assert!(get_bucket(&store.buckets, b"US", "old-mask").is_none());
    assert!(get_bucket(&store.buckets, b"US", "fresh-mask").is_some());
    assert_eq!(store.buckets.total_buckets, 1);
}

#[test]
fn sweep_stale_drops_empty_country_maps() {
    let mut store = MaskFeedbackStore::new();
    store.record_feedback(*b"US", b"reporter-1", &[outcome("old-mask", 1, 0)], HOUR);
    edit_bucket(&mut store.buckets, b"US", "old-mask").last_updated_hour = 0;
    let removed = store.sweep_stale(1000, DEFAULT_RETENTION_HOURS, NOW);
    assert_eq!(removed, 1);
    assert!(
        !store.buckets.countries.iter().any(|c| c.code == *b"US"),
        "country map with no remaining buckets should be dropped, not left empty"
    );
}

#[test]
fn sweep_stale_is_noop_when_nothing_is_old() {
    let mut store = MaskFeedbackStore::new();
    store.record_feedback(*b"US", b"reporter-1", &[outcome("mask_a", 1, 0)], HOUR);
    let removed = store.sweep_stale(HOUR, DEFAULT_RETENTION_HOURS, NOW);
    assert_eq!(removed, 0);
    assert_eq!(store.buckets.total_buckets, 1);
}

#[test]
fn sweep_keeps_a_bucket_until_its_retention_is_over() {
    let mut store = MaskFeedbackStore::new();
    store.record_feedback(*b"US", b"reporter-1", &[outcome("mask_a", 1, 0)], HOUR);
    assert_eq!(store.sweep_stale(HOUR + DEFAULT_RETENTION_HOURS, DEFAULT_RETENTION_HOURS, NOW), 0);
    assert_eq!(
        store.sweep_stale(HOUR + DEFAULT_RETENTION_HOURS + 1, DEFAULT_RETENTION_HOURS, NOW),
        1
    );
}

#[test]
fn per_reporter_vote_is_clamped_regardless_of_magnitude() {
    let mut store = MaskFeedbackStore::with_k_anon(1);
    store.record_feedback(*b"US", b"reporter-1", &[outcome("mask_a", 65535, 0)], HOUR);
    let bucket = get_bucket(&store.buckets, b"US", "mask_a").unwrap();
    assert_eq!(bucket.success_count, 1);
    assert_eq!(bucket.fail_count, 0);
}

#[test]
fn repeated_mask_id_within_one_call_is_deduplicated_and_clamped() {
    let mut store = MaskFeedbackStore::with_k_anon(1);
    let entries: Vec<MaskOutcome> = (0..10).map(|_| outcome("mask_a", 1, 0)).collect();
    store.record_feedback(*b"US", b"reporter-1", &entries, HOUR);
    let bucket = get_bucket(&store.buckets, b"US", "mask_a").unwrap();
    assert_eq!(bucket.success_count, 1);
    assert_eq!(bucket.fail_count, 0);
}

#[test]
fn only_the_first_entries_of_a_report_are_read() {
    let mut store = MaskFeedbackStore::with_k_anon(1);
    let entries: Vec<MaskOutcome> =
        (0..MAX_REPORT_ENTRIES + 1).map(|i| outcome(&format!("mask-{i}"), 1, 0)).collect();
    store.record_feedback(*b"US", b"reporter-1", &entries, HOUR);
    assert_eq!(store.bucket_count(), MAX_REPORT_ENTRIES);
}

#[test]
fn single_call_can_still_contribute_to_multiple_distinct_masks() {
    let mut store = MaskFeedbackStore::with_k_anon(1);
    store.record_feedback(
        *b"US",
        b"reporter-1",
        &[outcome("mask_a", 1, 0), outcome("mask_b", 0, 1)],
        HOUR,
    );
    assert_eq!(get_bucket(&store.buckets, b"US", "mask_a").unwrap().success_count, 1);
    assert_eq!(get_bucket(&store.buckets, b"US", "mask_b").unwrap().fail_count, 1);
}

#[test]
fn repeat_reporter_across_calls_can_still_skew_success_ratio() {
    let mut store = MaskFeedbackStore::with_k_anon(1);
    for _ in 0..50 {
        store.record_feedback(*b"US", b"same-reporter", &[outcome("mask_a", 1, 0)], HOUR);
    }
    let bucket = get_bucket(&store.buckets, b"US", "mask_a").unwrap();
    assert_eq!(
        bucket.success_count, 50,
        "success_count accumulates across calls from the same reporter token"
    );
    assert!(bucket.reporters.estimate() <= 2);
}

#[test]
fn vote_integrity_cap_bounds_score_for_single_spamming_reporter() {
    let mut store = MaskFeedbackStore::with_k_anon(1);
    store.record_feedback(*b"US", b"reporter-1", &[outcome("mask_a", 1, 0)], HOUR);
    let reporter_estimate =
        get_bucket(&store.buckets, b"US", "mask_a").unwrap().reporters.estimate();
    {
        let bucket = edit_bucket(&mut store.buckets, b"US", "mask_a");
        bucket.success_count = 10_000;
        bucket.fail_count = 1;
    }
    let top = store.top_masks_for_region(*b"US", NOW);
    assert_eq!(top.len(), 1);
    let score = ratio(&top[0].score);
    let uncapped_ratio = 10_000.0 / 10_001.0;
    assert!(score < uncapped_ratio - 0.1);
    let cap = reporter_estimate * MAX_VOTES_PER_REPORTER;
    let expected = cap as f32 / (cap as f32 + 1.0);
    assert!(
        (score - expected).abs() < 0.01,
        "score {} should equal the capped ratio {} (cap={})",
        score,
        expected,
        cap
    );
}

#[test]
fn capped_score_matches_raw_ratio_when_well_under_cap() {
    assert!((ratio(&capped_score(23, 2, 25)) - 23.0 / 25.0).abs() < 1e-6);
}

#[test]
fn capped_score_handles_zero_estimate_without_panic() {
    assert_eq!(ratio(&capped_score(100, 100, 0)), 0.0);
}

#[test]
fn continent_rollup_surfaces_mask_with_zero_local_reports() {
    let mut store = MaskFeedbackStore::with_k_anon(20);
    for i in 0..12u32 {
        let token = format!("de-reporter-{i}");
        store.record_feedback(
            *b"DE",
            token.as_bytes(),
            &[outcome("never_seen_locally_mask", 5, 5)],
            HOUR,
        );
    }
    for i in 0..12u32 {
        let token = format!("fr-reporter-{i}");
        store.record_feedback(
            *b"FR",
            token.as_bytes(),
            &[outcome("never_seen_locally_mask", 5, 5)],
            HOUR,
        );
    }
    assert!(get_bucket(&store.buckets, b"IT", "never_seen_locally_mask").is_none());
    let top = store.top_masks_for_region(*b"IT", NOW);
    assert!(top.iter().any(|h| h.mask_id == "never_seen_locally_mask"));
}

#[test]
fn top_masks_for_region_is_country_scoped_and_fast_with_many_unrelated_buckets() {
    let mut store = MaskFeedbackStore::with_k_anon(20);
    for i in 0..50_000u32 {
        let country = [b'A' + (i % 26) as u8, b'A' + ((i / 26) % 26) as u8];
        if country == *b"US" || country == *b"CA" || country == *b"MX" {
            continue;
        }
        put_bucket(&mut store.buckets, country, &format!("mask-{i}"), bucket_at_hour(i as u64));
        store.buckets.total_buckets += 1;
    }
    for i in 0..25u32 {
        let token = format!("reporter-{i}");
        let vote = if i < 23 { outcome("quic_https", 1, 0) } else { outcome("quic_https", 0, 1) };
        store.record_feedback(*b"US", token.as_bytes(), &[vote], HOUR);
    }
    for i in 0..3u32 {
        let token = format!("rare-reporter-{i}");
        store.record_feedback(*b"US", token.as_bytes(), &[outcome("rare_mask", 1, 0)], HOUR);
    }
    let start = std::time::Instant::now();
    let top = store.top_masks_for_region(*b"US", NOW);
    let elapsed = start.elapsed();
    assert_eq!(top.len(), 1);
    assert_eq!(top[0].mask_id, "quic_https");
    assert!((ratio(&top[0].score) - 0.9).abs() < 0.05);
    assert!(elapsed.as_millis() < 200, "took {:?}", elapsed);
}

#[test]
fn regional_hints_cache_returns_same_result_within_ttl() {
    let mut store = MaskFeedbackStore::with_k_anon(1);
    store.record_feedback(*b"US", b"reporter-1", &[outcome("mask_a", 1, 0)], HOUR);
    let first = store.top_masks_for_region(*b"US", NOW);
    assert_eq!(first.len(), 1);
    assert_eq!(first[0].mask_id, "mask_a");
    let mut b = MaskBucket::new();
    b.success_count = 5;
    b.reporters.add(b"someone-else");
    put_bucket(&mut store.buckets, *b"US", "mask_b", b);
    store.buckets.total_buckets += 1;
    let second = store.top_masks_for_region(*b"US", NOW + 1);
    assert!(
        named(&second) == named(&first),
        "a call within the TTL must reuse the cached result, not re-scan"
    );
}

#[test]
fn regional_hints_cache_recomputes_after_ttl_expiry() {
    let mut store = MaskFeedbackStore::with_k_anon(1);
    store.record_feedback(*b"US", b"reporter-1", &[outcome("mask_a", 1, 0)], HOUR);
    let first = store.top_masks_for_region(*b"US", NOW);
    assert_eq!(first.len(), 1);
    let entry = store
        .hints_cache
        .iter_mut()
        .find(|e| e.code == *b"US")
        .expect("cache entry populated by first call");
    entry.computed_at = NOW - REGIONAL_HINTS_CACHE_TTL - 1_000_000_000;
    store.record_feedback(*b"US", b"reporter-2", &[outcome("mask_b", 1, 0)], HOUR);
    let second = store.top_masks_for_region(*b"US", NOW);
    assert!(
        second.iter().any(|h| h.mask_id == "mask_b"),
        "an expired cache entry must be recomputed and reflect newly recorded data"
    );
}

#[test]
fn regional_hints_cache_ends_with_its_time() {
    let mut store = MaskFeedbackStore::with_k_anon(1);
    store.record_feedback(*b"US", b"reporter-1", &[outcome("mask_a", 1, 0)], HOUR);
    store.top_masks_for_region(*b"US", NOW);
    assert!(store.cached_hints(b"US", NOW + REGIONAL_HINTS_CACHE_TTL - 1).is_some());
    assert!(store.cached_hints(b"US", NOW + REGIONAL_HINTS_CACHE_TTL).is_none());
    store.sweep_stale(HOUR, DEFAULT_RETENTION_HOURS, NOW + REGIONAL_HINTS_CACHE_TTL);
    assert!(store.hints_cache.is_empty());
}

#[test]
fn regional_hints_cache_never_caches_a_pre_gate_result() {
    let mut store = MaskFeedbackStore::with_k_anon(20);
    for i in 0..5u32 {
        let token = format!("reporter-{i}");
        store.record_feedback(*b"US", token.as_bytes(), &[outcome("mask_a", 1, 0)], HOUR);
    }
    assert!(store.top_masks_for_region(*b"US", NOW).is_empty());
    assert!(
        store.top_masks_for_region(*b"US", NOW).is_empty(),
        "a cached sub-threshold result must still be empty on the next call"
    );
}

#[test]
fn report_in_one_country_is_seen_by_its_neighbours_at_once() {
    let mut store = MaskFeedbackStore::with_k_anon(1);
    assert!(store.top_masks_for_region(*b"DE", NOW).is_empty());
    store.record_feedback(*b"FR", b"reporter-1", &[outcome("mask_a", 1, 0)], HOUR);
    assert_eq!(store.top_masks_for_region(*b"DE", NOW).len(), 1);
    assert!(store.top_masks_for_region(*b"US", NOW).is_empty());
}

#[test]
fn hints_come_best_first_and_thirty_two_at_most() {
    let mut store = MaskFeedbackStore::with_k_anon(1);
    for i in 0..40u64 {
        let mut bucket = MaskBucket::new();
        bucket.success_count = i;
        bucket.fail_count = 40 - i;
        for r in 0..40u32 {
            bucket.reporters.add(&r.to_le_bytes());
        }
        put_bucket(&mut store.buckets, *b"BR", &format!("mask-{i}"), bucket);
        store.buckets.total_buckets += 1;
    }
    let top = store.top_masks_for_region(*b"BR", NOW);
    assert_eq!(top.len(), 32);
    for (i, hint) in top.iter().enumerate() {
        assert_eq!(hint.mask_id, format!("mask-{}", 39 - i));
    }
}

#[test]
fn default_store_is_empty_with_the_default_threshold() {
    let mut store = MaskFeedbackStore::default();
    assert_eq!(store.k_anon, DEFAULT_K_ANON);
    assert_eq!(store.bucket_count(), 0);
    assert_eq!(store.region_count(), 0);
    assert!(store.top_masks_for_region(*b"DE", 0).is_empty());
}

#[test]
fn estimate_depends_on_the_set_of_tokens() {
    let tokens = |list: &[u32]| {
        let mut hll = Hll::new();
        for t in list {
            hll.add(&t.to_le_bytes());
        }
        hll
    };
    let a = tokens(&[1, 2, 3]);
    let b = tokens(&[3, 3, 1, 2, 1]);
    assert!(a.registers()[..] == b.registers()[..]);
    assert_eq!(a.estimate(), b.estimate());
    assert_eq!(Hll::new().estimate(), 0);
    assert!(tokens(&[7]).estimate() > 0);
    let copy = a.clone();
    assert_eq!(copy.estimate(), 3);
}

#[test]
fn unlisted_country_named_like_a_continent_stands_alone() {
    let mut store = MaskFeedbackStore::with_k_anon(20);
    for i in 0..200u32 {
        store.record_feedback(*b"US", &i.to_le_bytes(), &[outcome("mask_a", 1, 0)], HOUR);
    }
    assert_eq!(store.top_masks_for_region(*b"CA", NOW).len(), 1);
    assert!(store.top_masks_for_region(*b"NA", NOW).is_empty());
}

#[test]
fn kept_answers_passed_the_threshold() {
    let mut store = MaskFeedbackStore::with_k_anon(20);
    for i in 0..200u32 {
        store.record_feedback(*b"US", &i.to_le_bytes(), &[outcome("mask_a", 1, 0)], HOUR);
    }
    store.record_feedback(*b"US", b"one", &[outcome("rare", 1, 0)], HOUR);
    for _ in 0..2 {
        let hints = store.top_masks_for_region(*b"US", NOW);
        let ids: Vec<&str> = hints.iter().map(|h| h.mask_id.as_str()).collect();
        assert_eq!(ids, vec!["mask_a"]);
    }
}
