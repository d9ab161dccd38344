//! Crowdsourced mask feedback: which masks work where, told only of masks that enough
//! distinct reporters have reported on.

use crate::feedback_laws::{
    distinct_votes, report_counts_each_vote_once, report_keeps_table_in_order,
    sweep_keeps_table_in_order, within_caps,
};
use crate::feedback_map::{
    bucket_at, bucket_sum, cast_all, counted, masks_of, swept, well_formed, CountryView,
    FeedbackMap, MapView, Vote, VoteView,
};
use crate::hints::{
    compute_top_masks, has_enough_reporters, hints_are_k_anonymous, hints_view, is_hints, ranked,
    Hint, HintView, MAX_HINTS,
};
use crate::outside::{blake3_digest, blake3_hash, random_salt};
use crate::region::{codes, rollup_is_mutual, rollup_members, rollup_of};
use vstd::prelude::*;
use vstd::utf8::encode_utf8;

verus! {

/// Distinct reporters that a mask needs before anyone is told about it.
pub const DEFAULT_K_ANON: u64 = 20;

/// Longest mask id, in bytes, that a report may name.
pub const MAX_MASK_ID_LEN: usize = 64;

/// Most outcomes that one report may hold.
pub const MAX_REPORT_ENTRIES: usize = 64;

/// How long, in nanoseconds, a region's hints are reused.
pub const REGIONAL_HINTS_CACHE_TTL: u64 = 45_000_000_000;

/// Hours after which a bucket without new reports is dropped.
pub const DEFAULT_RETENTION_HOURS: u64 = 168;

/// What a client saw of one mask.
pub struct MaskOutcome {
    pub mask_id: String,
    pub success: u16,
    pub fail: u16,
}

#[verifier::ext_equal]
pub struct OutcomeView {
    pub mask_id: Seq<char>,
    pub success: u16,
    pub fail: u16,
}

impl View for MaskOutcome {
    type V = OutcomeView;

    open spec fn view(&self) -> OutcomeView {
        OutcomeView { mask_id: self.mask_id@, success: self.success, fail: self.fail }
    }
}

/// A region's hints and the time, in nanoseconds, at which they were worked out.
pub struct HintsCacheEntry {
    pub code: [u8; 2],
    pub computed_at: u64,
    pub hints: Vec<Hint>,
}

#[verifier::ext_equal]
pub struct CacheView {
    pub code: Seq<u8>,
    pub computed_at: u64,
    pub hints: Seq<HintView>,
}

impl View for HintsCacheEntry {
    type V = CacheView;

    open spec fn view(&self) -> CacheView {
        CacheView {
            code: self.code@,
            computed_at: self.computed_at,
            hints: hints_view(self.hints@),
        }
    }
}

/// The views of a list of cached hints.
pub open spec fn cache_view(cache: Seq<HintsCacheEntry>) -> Seq<CacheView> {
    cache.map_values(|e: HintsCacheEntry| e@)
}

/// The views of a list of outcomes.
pub open spec fn outcomes_view(entries: Seq<MaskOutcome>) -> Seq<OutcomeView> {
    entries.map_values(|e: MaskOutcome| e@)
}

/// The views of a list of votes.
pub open spec fn votes_view(votes: Seq<Vote>) -> Seq<VoteView> {
    votes.map_values(|v: Vote| v@)
}

/// Where a mask's vote stands in a list from `from` on; the length where there is none.
pub open spec fn vote_pos(votes: Seq<VoteView>, id: Seq<char>, from: int) -> int
    decreases votes.len() - from,
{
    if from >= votes.len() {
        votes.len() as int
    } else if votes[from].mask_id == id {
        from
    } else {
        vote_pos(votes, id, from + 1)
    }
}

/// A list of votes after one more outcome: at most one vote of each kind per mask, and none
/// for a mask whose id is too long.
pub open spec fn tallied(votes: Seq<VoteView>, e: OutcomeView) -> Seq<VoteView> {
    let p = vote_pos(votes, e.mask_id, 0);
    if encode_utf8(e.mask_id).len() > MAX_MASK_ID_LEN {
        votes
    } else if p < votes.len() {
        votes.update(
            p,
            VoteView {
                mask_id: votes[p].mask_id,
                success: votes[p].success || e.success > 0,
                fail: votes[p].fail || e.fail > 0,
            },
        )
    } else {
        votes.push(
            VoteView { mask_id: e.mask_id, success: e.success > 0, fail: e.fail > 0 },
        )
    }
}

/// The votes that a report's outcomes amount to.
pub open spec fn tally(entries: Seq<OutcomeView>) -> Seq<VoteView>
    decreases entries.len(),
{
    if entries.len() == 0 {
        seq![]
    } else {
        tallied(tally(entries.drop_last()), entries.last())
    }
}

/// The part of a report that is read.
pub open spec fn read_part(entries: Seq<OutcomeView>) -> Seq<OutcomeView> {
    if entries.len() > MAX_REPORT_ENTRIES {
        entries.take(MAX_REPORT_ENTRIES as int)
    } else {
        entries
    }
}

/// The cached hints left once those of the listed countries are gone.
pub open spec fn dropped(cache: Seq<CacheView>, list: Seq<Seq<u8>>) -> Seq<CacheView> {
    cache.filter(|e: CacheView| !list.contains(e.code))
}

/// Cached hints that are still in use.
pub open spec fn in_use(e: CacheView, now: u64) -> bool {
    now < e.computed_at + REGIONAL_HINTS_CACHE_TTL
}

/// The cached hints left once those too old are gone.
pub open spec fn unexpired(cache: Seq<CacheView>, now: u64) -> Seq<CacheView> {
    cache.filter(|e: CacheView| in_use(e, now))
}

/// Where a country's hints stand in the cache from `from` on; the length where they do not.
pub open spec fn cache_pos(cache: Seq<CacheView>, code: Seq<u8>, from: int) -> int
    decreases cache.len() - from,
{
    if from >= cache.len() {
        cache.len() as int
    } else if cache[from].code == code {
        from
    } else {
        cache_pos(cache, code, from + 1)
    }
}

/// The hints that the cache answers with.
pub open spec fn cached(cache: Seq<CacheView>, code: Seq<u8>, now: u64) -> Option<Seq<HintView>> {
    let i = cache_pos(cache, code, 0);
    if i < cache.len() && in_use(cache[i], now) {
        Some(cache[i].hints)
    } else {
        None
    }
}

/// A list of hints is what some table of reports gave for a country.
pub open spec fn is_gated(hints: Seq<HintView>, k_anon: nat, code: Seq<u8>) -> bool {
    exists|countries: Seq<CountryView>| #[trigger] is_hints(hints, countries, k_anon, code)
}

/// Every kept answer is what some table of reports gave for its country: it has passed the
/// reporter threshold, names each mask once, and is ranked and bounded.
pub open spec fn all_gated(cache: Seq<CacheView>, k_anon: nat) -> bool {
    forall|i: int|
        0 <= i < cache.len() ==> is_gated((#[trigger] cache[i]).hints, k_anon, cache[i].code)
}

/// A secret that reporter tokens are hashed with, drawn anew for each store. It cannot be read
/// from outside.
pub struct ReporterSalt {
    bytes: [u8; 32],
}

impl View for ReporterSalt {
    type V = Seq<u8>;

    closed spec fn view(&self) -> Seq<u8> {
        self.bytes@
    }
}

impl ReporterSalt {
    fn draw() -> ReporterSalt {
        ReporterSalt { bytes: random_salt() }
    }

    fn hash(&self, token: &[u8]) -> (digest: [u8; 32])
        ensures
            digest@ == blake3_digest(self@ + token@),
    {
        let mut salted: Vec<u8> = Vec::new();
        salted.extend_from_slice(self.bytes.as_slice());
        salted.extend_from_slice(token);
        assert(salted@ =~= self@ + token@);
        blake3_hash(salted.as_slice())
    }
}

/// Feedback buckets, the salt that reporter tokens are hashed with, and recent answers.
pub struct MaskFeedbackStore {
    pub k_anon: u64,
    pub reporter_salt: ReporterSalt,
    pub buckets: FeedbackMap,
    pub hints_cache: Vec<HintsCacheEntry>,
}

fn find_vote(votes: &Vec<Vote>, id: &String) -> (p: usize)
    ensures
        p == vote_pos(votes_view(votes@), id@, 0),
        p <= votes@.len(),
{
    let ghost v = votes_view(votes@);
    let mut i: usize = 0;
    while i < votes.len()
        invariant
            i <= votes.len(),
            v == votes_view(votes@),
            vote_pos(v, id@, 0) == vote_pos(v, id@, i as int),
        decreases votes.len() - i,
    {
        assert(v[i as int].mask_id == votes@[i as int].mask_id@);
        if votes[i].mask_id == *id {
            return i;
        }
        i += 1;
    }
    i
}

/// The votes that a report amounts to: per mask at most one success and one failure,
/// whatever counts the report claims.
pub fn tally_votes(entries: &[MaskOutcome]) -> (votes: Vec<Vote>)
    ensures
        votes_view(votes@) == tally(read_part(outcomes_view(entries@))),
{
    let ghost all = outcomes_view(entries@);
    let mut votes: Vec<Vote> = Vec::new();
    let mut i: usize = 0;
    assert(votes_view(votes@) =~= tally(all.take(0)));
    while i < entries.len() && i < MAX_REPORT_ENTRIES
        invariant
            i <= entries.len(),
            i <= MAX_REPORT_ENTRIES,
            all == outcomes_view(entries@),
            votes_view(votes@) == tally(all.take(i as int)),
        decreases entries.len() - i,
    {
        let ghost before = votes_view(votes@);
        let entry: &MaskOutcome = &entries[i];
        proof {
            assert(all[i as int] == entry@);
            assert(all.take(i + 1).drop_last() =~= all.take(i as int));
        }
        if entry.mask_id.as_str().as_bytes().len() <= MAX_MASK_ID_LEN {
            let p: usize = find_vote(&votes, &entry.mask_id);
            if p < votes.len() {
                let success: bool = votes[p].success || entry.success > 0;
                let fail: bool = votes[p].fail || entry.fail > 0;
                votes[p].success = success;
                votes[p].fail = fail;
            } else {
                votes.push(
                    Vote {
                        mask_id: entry.mask_id.clone(),
                        success: entry.success > 0,
                        fail: entry.fail > 0,
                    },
                );
            }
        }
        proof {
            let p = vote_pos(before, entry@.mask_id, 0);
            if encode_utf8(entry@.mask_id).len() > MAX_MASK_ID_LEN {
                assert(votes_view(votes@) == before);
            } else if p < before.len() {
                assert(votes_view(votes@) =~= tallied(before, entry@));
            } else {
                assert(votes_view(votes@) =~= tallied(before, entry@));
            }
        }
        i += 1;
    }
    assert(all.take(i as int) =~= read_part(all));
    votes
}

fn is_listed(list: &Vec<[u8; 2]>, code: &[u8; 2]) -> (r: bool)
    ensures
        r == codes(list@).contains(code@),
{
    let ghost v = codes(list@);
    let mut i: usize = 0;
    while i < list.len()
        invariant
            i <= list.len(),
            v == codes(list@),
            forall|k: int| 0 <= k < i ==> v[k] != code@,
        decreases list.len() - i,
    {
        assert(v[i as int] == list@[i as int]@);
        if list[i][0] == code[0] && list[i][1] == code[1] {
            assert(v[i as int] =~= code@);
            return true;
        }
        i += 1;
    }
    false
}

/// The cached hints of countries that are not listed.
fn drop_listed(cache: Vec<HintsCacheEntry>, list: &Vec<[u8; 2]>) -> (kept: Vec<HintsCacheEntry>)
    ensures
        cache_view(kept@) == dropped(cache_view(cache@), codes(list@)),
{
    let ghost v = cache_view(cache@);
    let ghost all = cache@;
    let ghost members = codes(list@);
    let ghost p = |e: CacheView| !members.contains(e.code);
    let mut kept: Vec<HintsCacheEntry> = Vec::new();
    proof {
        reveal(Seq::filter);
        assert(cache_view(kept@) =~= v.take(0).filter(p));
    }
    for e in it: cache
        invariant
            it.seq() == all,
            v == cache_view(all),
            members == codes(list@),
            p == (|e: CacheView| !members.contains(e.code)),
            cache_view(kept@) == v.take(it.index() as int).filter(p),
    {
        let ghost n = it.index() as int;
        let ghost pre = cache_view(kept@);
        proof {
            reveal(Seq::filter);
            assert(v.take(n + 1).drop_last() =~= v.take(n));
            assert(v.take(n + 1).last() == e@);
        }
        if !is_listed(list, &e.code) {
            kept.push(e);
            assert(cache_view(kept@) =~= pre.push(v[n]));
        }
    }
    assert(v.take(v.len() as int) =~= v);
    kept
}

/// The cached hints that are still in use.
fn keep_in_use(cache: Vec<HintsCacheEntry>, now: u64) -> (kept: Vec<HintsCacheEntry>)
    ensures
        cache_view(kept@) == unexpired(cache_view(cache@), now),
{
    let ghost v = cache_view(cache@);
    let ghost all = cache@;
    let ghost p = |e: CacheView| in_use(e, now);
    let mut kept: Vec<HintsCacheEntry> = Vec::new();
    proof {
        reveal(Seq::filter);
        assert(cache_view(kept@) =~= v.take(0).filter(p));
    }
    for e in it: cache
        invariant
            it.seq() == all,
            v == cache_view(all),
            p == (|e: CacheView| in_use(e, now)),
            cache_view(kept@) == v.take(it.index() as int).filter(p),
    {
        let ghost n = it.index() as int;
        let ghost pre = cache_view(kept@);
        proof {
            reveal(Seq::filter);
            assert(v.take(n + 1).drop_last() =~= v.take(n));
            assert(v.take(n + 1).last() == e@);
        }
        if now.saturating_sub(e.computed_at) < REGIONAL_HINTS_CACHE_TTL {
            kept.push(e);
            assert(cache_view(kept@) =~= pre.push(v[n]));
        }
    }
    assert(v.take(v.len() as int) =~= v);
    kept
}

/// A copy of a list of hints.
pub fn copy_hints(hints: &Vec<Hint>) -> (copy: Vec<Hint>)
    ensures
        hints_view(copy@) == hints_view(hints@),
{
    let ghost v = hints_view(hints@);
    let mut copy: Vec<Hint> = Vec::new();
    let mut i: usize = 0;
    while i < hints.len()
        invariant
            i <= hints.len(),
            v == hints_view(hints@),
            hints_view(copy@) == v.take(i as int),
        decreases hints.len() - i,
    {
        let ghost before = hints_view(copy@);
        copy.push(Hint { mask_id: hints[i].mask_id.clone(), score: hints[i].score });
        assert(v[i as int] == hints@[i as int]@);
        assert(hints_view(copy@) =~= before.push(v[i as int]));
        assert(v.take(i + 1) =~= v.take(i as int).push(v[i as int]));
        i += 1;
    }
    assert(v.take(i as int) =~= v);
    copy
}

impl MaskFeedbackStore {
    /// The salt that reporter tokens are hashed with.
    pub open spec fn salt(&self) -> Seq<u8> {
        self.reporter_salt@
    }

    /// What a reporter's token becomes before it is counted.
    pub open spec fn salted(&self, token: Seq<u8>) -> Seq<u8> {
        blake3_digest(self.salt() + token)
    }

    /// No country and no mask of a country is listed twice, and every kept answer has passed
    /// the reporter threshold.
    pub open spec fn well_formed(&self) -> bool {
        well_formed(self.buckets@.countries) && all_gated(
            cache_view(self.hints_cache@),
            self.k_anon as nat,
        )
    }

    /// An empty store with the default reporter threshold and a salt of its own.
    pub fn new() -> (store: MaskFeedbackStore)
        ensures
            store.k_anon == DEFAULT_K_ANON,
            store.buckets@ == (MapView { countries: seq![], total: 0 }),
            store.hints_cache@.len() == 0,
            store.well_formed(),
            within_caps(store.buckets@),
    {
        MaskFeedbackStore::with_k_anon(DEFAULT_K_ANON)
    }

    /// An empty store with a given reporter threshold and a salt of its own.
    pub fn with_k_anon(k_anon: u64) -> (store: MaskFeedbackStore)
        ensures
            store.k_anon == k_anon,
            store.buckets@ == (MapView { countries: seq![], total: 0 }),
            store.hints_cache@.len() == 0,
            store.well_formed(),
            within_caps(store.buckets@),
    {
        MaskFeedbackStore {
            k_anon,
            reporter_salt: ReporterSalt::draw(),
            buckets: FeedbackMap::new(),
            hints_cache: Vec::new(),
        }
    }

    /// Counts a report. `hour` is the current time in whole hours since the epoch.
    ///
    /// The hints of every country of the same continent are forgotten, so that the next
    /// question about them sees this report.
    pub fn record_feedback(
        &mut self,
        country_code: [u8; 2],
        client_reporter_token: &[u8],
        entries: &[MaskOutcome],
        hour: u64,
    )
        ensures
            ({
                let votes = tally(read_part(outcomes_view(entries@)));
                &&& final(self).buckets@ == cast_all(
                    old(self).buckets@,
                    country_code@,
                    votes,
                    old(self).salted(client_reporter_token@),
                    hour as nat,
                )
                &&& cache_view(final(self).hints_cache@) == (if votes.len() == 0 {
                    cache_view(old(self).hints_cache@)
                } else {
                    dropped(cache_view(old(self).hints_cache@), rollup_of(country_code@))
                })
            }),
            final(self).k_anon == old(self).k_anon,
            final(self).salt() == old(self).salt(),
            old(self).well_formed() ==> final(self).well_formed(),
            old(self).well_formed() && within_caps(old(self).buckets@) ==> within_caps(
                final(self).buckets@,
            ),
    {
        let votes: Vec<Vote> = tally_votes(entries);
        if votes.len() == 0 {
            return;
        }
        let digest: [u8; 32] = self.reporter_salt.hash(client_reporter_token);
        let ghost token = self.salted(client_reporter_token@);
        let ghost m = self.buckets@;
        let ghost all = votes_view(votes@);
        let mut i: usize = 0;
        assert(all.take(0) =~= seq![]);
        while i < votes.len()
            invariant
                i <= votes.len(),
                all == votes_view(votes@),
                digest@ == token,
                self.buckets@ == cast_all(m, country_code@, all.take(i as int), token, hour as nat),
                self.k_anon == old(self).k_anon,
                self.reporter_salt == old(self).reporter_salt,
                self.hints_cache == old(self).hints_cache,
            decreases votes.len() - i,
        {
            proof {
                assert(all.take(i + 1).drop_last() =~= all.take(i as int));
                assert(all.take(i + 1).last() == votes@[i as int]@);
            }
            self.buckets.cast_vote(country_code, &votes[i], digest.as_slice(), hour);
            i += 1;
        }
        assert(all.take(i as int) =~= all);
        proof {
            if well_formed(m.countries) {
                report_keeps_table_in_order(m, country_code@, all, token, hour as nat);
            }
        }
        let affected: Vec<[u8; 2]> = rollup_members(&country_code);
        let mut cache: Vec<HintsCacheEntry> = Vec::new();
        std::mem::swap(&mut cache, &mut self.hints_cache);
        self.hints_cache = drop_listed(cache, &affected);
        proof {
            if old(self).well_formed() {
                let listed = rollup_of(country_code@);
                lemma_filter_keeps_gated(
                    cache_view(old(self).hints_cache@),
                    |e: CacheView| !listed.contains(e.code),
                    self.k_anon as nat,
                );
            }
        }
    }

    /// Drops buckets that have had no report for more than `max_age_hours`, and hints that
    /// are out of use at time `now` (in nanoseconds). Returns how many buckets went.
    pub fn sweep_stale(&mut self, now_hour: u64, max_age_hours: u64, now: u64) -> (removed: usize)
        requires
            bucket_sum(old(self).buckets@.countries) <= usize::MAX,
        ensures
            final(self).buckets@.countries == swept(
                old(self).buckets@.countries,
                old(self).buckets@.countries.len() as int,
                now_hour as nat,
                max_age_hours as nat,
            ),
            removed == bucket_sum(old(self).buckets@.countries) - bucket_sum(
                final(self).buckets@.countries,
            ),
            final(self).buckets@.total == (if old(self).buckets@.total >= removed {
                (old(self).buckets@.total - removed) as nat
            } else {
                0
            }),
            cache_view(final(self).hints_cache@) == unexpired(
                cache_view(old(self).hints_cache@),
                now,
            ),
            final(self).k_anon == old(self).k_anon,
            final(self).salt() == old(self).salt(),
            old(self).well_formed() ==> final(self).well_formed(),
            old(self).well_formed() && counted(old(self).buckets@) ==> counted(
                final(self).buckets@,
            ),
            old(self).well_formed() && within_caps(old(self).buckets@) ==> within_caps(
                final(self).buckets@,
            ),
    {
        let ghost m = self.buckets@;
        let removed: usize = self.buckets.sweep(now_hour, max_age_hours);
        let mut cache: Vec<HintsCacheEntry> = Vec::new();
        std::mem::swap(&mut cache, &mut self.hints_cache);
        self.hints_cache = keep_in_use(cache, now);
        proof {
            if all_gated(cache_view(old(self).hints_cache@), self.k_anon as nat) {
                lemma_filter_keeps_gated(
                    cache_view(old(self).hints_cache@),
                    |e: CacheView| in_use(e, now),
                    self.k_anon as nat,
                );
            }
            if well_formed(m.countries) {
                let sum = bucket_sum(m.countries);
                sweep_keeps_table_in_order(
                    MapView { countries: m.countries, total: sum },
                    MapView { countries: self.buckets@.countries, total: (sum - removed) as nat },
                    now_hour as nat,
                    max_age_hours as nat,
                );
            }
            if well_formed(m.countries) && counted(m) {
                sweep_keeps_table_in_order(
                    m,
                    self.buckets@,
                    now_hour as nat,
                    max_age_hours as nat,
                );
            }
        }
        removed
    }

    /// How many buckets are recorded.
    pub fn bucket_count(&self) -> (n: usize)
        ensures
            n == self.buckets@.total,
    {
        self.buckets.total_buckets
    }

    /// How many countries have a bucket.
    pub fn region_count(&self) -> (n: usize)
        ensures
            n == self.buckets@.countries.len(),
    {
        self.buckets.countries.len()
    }

    /// What a country is told at time `now` (in nanoseconds): the last answer where it is
    /// still in use, else a new one, which is then kept.
    pub fn top_masks_for_region(&mut self, country_code: [u8; 2], now: u64) -> (hints: Vec<Hint>)
        requires
            old(self).well_formed(),
        ensures
            match cached(cache_view(old(self).hints_cache@), country_code@, now) {
                Some(kept) => {
                    &&& hints_view(hints@) == kept
                    &&& cache_view(final(self).hints_cache@) == cache_view(old(self).hints_cache@)
                },
                None => {
                    &&& is_hints(
                        hints_view(hints@),
                        old(self).buckets@.countries,
                        old(self).k_anon as nat,
                        country_code@,
                    )
                    &&& cache_view(final(self).hints_cache@) == dropped(
                        cache_view(old(self).hints_cache@),
                        seq![country_code@],
                    ).push(
                        CacheView {
                            code: country_code@,
                            computed_at: now,
                            hints: hints_view(hints@),
                        },
                    )
                },
            },
            is_gated(hints_view(hints@), old(self).k_anon as nat, country_code@),
            final(self).buckets@ == old(self).buckets@,
            final(self).k_anon == old(self).k_anon,
            final(self).salt() == old(self).salt(),
            final(self).well_formed(),
    {
        proof {
            lemma_cached_is_gated(
                cache_view(self.hints_cache@),
                self.k_anon as nat,
                country_code@,
                now,
            );
        }
        if let Some(kept) = self.cached_hints(&country_code, now) {
            return kept;
        }
        let hints: Vec<Hint> = compute_top_masks(&self.buckets, self.k_anon, country_code);
        let copy: Vec<Hint> = copy_hints(&hints);
        let mut own: Vec<[u8; 2]> = Vec::new();
        own.push(country_code);
        assert(codes(own@) =~= seq![country_code@]);
        let mut cache: Vec<HintsCacheEntry> = Vec::new();
        std::mem::swap(&mut cache, &mut self.hints_cache);
        let mut rest: Vec<HintsCacheEntry> = drop_listed(cache, &own);
        let ghost before = cache_view(rest@);
        rest.push(HintsCacheEntry { code: country_code, computed_at: now, hints: copy });
        assert(cache_view(rest@) =~= before.push(rest@.last()@));
        proof {
            lemma_filter_keeps_gated(
                cache_view(old(self).hints_cache@),
                |e: CacheView| !seq![country_code@].contains(e.code),
                self.k_anon as nat,
            );
            assert(is_hints(
                hints_view(hints@),
                self.buckets@.countries,
                self.k_anon as nat,
                country_code@,
            ));
        }
        self.hints_cache = rest;
        hints
    }

    /// The last answer for a country, where it is still in use.
    pub fn cached_hints(&self, country_code: &[u8; 2], now: u64) -> (hints: Option<Vec<Hint>>)
        ensures
            match hints {
                Some(h) => cached(cache_view(self.hints_cache@), country_code@, now) == Some(
                    hints_view(h@),
                ),
                None => cached(cache_view(self.hints_cache@), country_code@, now) is None,
            },
    {
        let ghost v = cache_view(self.hints_cache@);
        let mut i: usize = 0;
        while i < self.hints_cache.len()
            invariant
                i <= self.hints_cache.len(),
                v == cache_view(self.hints_cache@),
                cache_pos(v, country_code@, 0) == cache_pos(v, country_code@, i as int),
            decreases self.hints_cache.len() - i,
        {
            let e: &HintsCacheEntry = &self.hints_cache[i];
            assert(v[i as int] == e@);
            if e.code[0] == country_code[0] && e.code[1] == country_code[1] {
                assert(e.code@ =~= country_code@);
                if now.saturating_sub(e.computed_at) < REGIONAL_HINTS_CACHE_TTL {
                    return Some(copy_hints(&e.hints));
                }
                return None;
            }
            i += 1;
        }
        None
    }
}

impl Default for MaskFeedbackStore {
    fn default() -> (store: MaskFeedbackStore)
        ensures
            store.k_anon == DEFAULT_K_ANON,
            store.buckets@ == (MapView { countries: seq![], total: 0 }),
            store.hints_cache@.len() == 0,
            store.well_formed(),
            within_caps(store.buckets@),
    {
        MaskFeedbackStore::new()
    }
}

proof fn lemma_vote_pos(votes: Seq<VoteView>, id: Seq<char>, from: int)
    requires
        0 <= from <= votes.len(),
    ensures
        from <= vote_pos(votes, id, from) <= votes.len(),
        vote_pos(votes, id, from) < votes.len() ==> votes[vote_pos(votes, id, from)].mask_id == id,
        forall|k: int|
            from <= k < vote_pos(votes, id, from) ==> (#[trigger] votes[k]).mask_id != id,
    decreases votes.len() - from,
{
    if from < votes.len() && votes[from].mask_id != id {
        lemma_vote_pos(votes, id, from + 1);
    }
}

/// A report has at most one vote per mask, however often it names the mask.
pub proof fn tally_has_one_vote_per_mask(entries: Seq<OutcomeView>)
    ensures
        distinct_votes(tally(entries)),
        tally(entries).len() <= entries.len(),
    decreases entries.len(),
{
    if entries.len() > 0 {
        let rest = entries.drop_last();
        tally_has_one_vote_per_mask(rest);
        let votes = tally(rest);
        let e = entries.last();
        lemma_vote_pos(votes, e.mask_id, 0);
    }
}

proof fn lemma_dropped_misses(cache: Seq<CacheView>, list: Seq<Seq<u8>>, code: Seq<u8>, now: u64)
    requires
        list.contains(code),
    ensures
        cached(dropped(cache, list), code, now) is None,
{
    let left = dropped(cache, list);
    lemma_cache_pos(left, code, 0);
    let i = cache_pos(left, code, 0);
    if i < left.len() {
        cache.lemma_filter_pred(|e: CacheView| !list.contains(e.code), i);
        assert(left[i].code == code);
        assert(false);
    }
}

proof fn lemma_cache_pos(cache: Seq<CacheView>, code: Seq<u8>, from: int)
    requires
        0 <= from <= cache.len(),
    ensures
        from <= cache_pos(cache, code, from) <= cache.len(),
        cache_pos(cache, code, from) < cache.len() ==> cache[cache_pos(cache, code, from)].code
            == code,
    decreases cache.len() - from,
{
    if from < cache.len() && cache[from].code != code {
        lemma_cache_pos(cache, code, from + 1);
    }
}

/// After a report from `a`, no country for which that report counts is answered from the
/// cache.
pub proof fn report_is_seen_by_next_question(
    cache: Seq<CacheView>,
    a: Seq<u8>,
    b: Seq<u8>,
    now: u64,
)
    requires
        rollup_of(b).contains(a),
    ensures
        cached(dropped(cache, rollup_of(a)), b, now) is None,
{
    rollup_is_mutual(a, b);
    lemma_dropped_misses(cache, rollup_of(a), b, now);
}

/// An answer is repeated for as long as it is in use and nothing makes it obsolete.
pub proof fn answer_is_reused_while_fresh(
    cache: Seq<CacheView>,
    code: Seq<u8>,
    at: u64,
    hints: Seq<HintView>,
    now: u64,
)
    requires
        now < at + REGIONAL_HINTS_CACHE_TTL,
    ensures
        cached(
            dropped(cache, seq![code]).push(CacheView { code, computed_at: at, hints }),
            code,
            now,
        ) == Some(hints),
{
    let left = dropped(cache, seq![code]);
    let e = CacheView { code, computed_at: at, hints };
    let after = left.push(e);
    assert(seq![code][0] == code);
    assert forall|i: int| 0 <= i < left.len() implies (#[trigger] after[i]).code != code by {
        cache.lemma_filter_pred(|e: CacheView| !seq![code].contains(e.code), i);
        assert(after[i] == left[i]);
    }
    lemma_first_match(after, code, left.len() as int, 0);
}

proof fn lemma_filter_keeps_gated(
    cache: Seq<CacheView>,
    kept: spec_fn(CacheView) -> bool,
    k_anon: nat,
)
    requires
        all_gated(cache, k_anon),
    ensures
        all_gated(cache.filter(kept), k_anon),
{
    let left = cache.filter(kept);
    assert forall|i: int| 0 <= i < left.len() implies is_gated(
        (#[trigger] left[i]).hints,
        k_anon,
        left[i].code,
    ) by {
        cache.lemma_filter_contains_rev(kept, left[i]);
        let j = choose|j: int| 0 <= j < cache.len() && cache[j] == left[i];
        assert(is_gated(cache[j].hints, k_anon, cache[j].code));
    }
}

proof fn lemma_cached_is_gated(cache: Seq<CacheView>, k_anon: nat, code: Seq<u8>, now: u64)
    requires
        all_gated(cache, k_anon),
    ensures
        cached(cache, code, now) matches Some(hints) ==> is_gated(hints, k_anon, code),
{
    lemma_cache_pos(cache, code, 0);
}

/// What a region is told, freshly worked out or kept, never names a mask that fewer than the
/// required number of reporters had reported on, in the country or on its continent, when the
/// answer was worked out. It names at most [`MAX_HINTS`] masks, each once, best first.
pub proof fn answers_are_k_anonymous(hints: Seq<HintView>, k_anon: nat, code: Seq<u8>)
    requires
        is_gated(hints, k_anon, code),
    ensures
        hints.len() <= MAX_HINTS,
        ranked(hints),
        forall|i: int, j: int|
            0 <= i < j < hints.len() ==> (#[trigger] hints[i]).mask_id != (
            #[trigger] hints[j]).mask_id,
        exists|countries: Seq<CountryView>|
            #![trigger is_hints(hints, countries, k_anon, code)]
            is_hints(hints, countries, k_anon, code) && forall|i: int|
                0 <= i < hints.len() ==> has_enough_reporters(
                    countries,
                    k_anon,
                    code,
                    (#[trigger] hints[i]).mask_id,
                ),
{
    let countries = choose|countries: Seq<CountryView>| #[trigger]
        is_hints(hints, countries, k_anon, code);
    assert forall|i: int| 0 <= i < hints.len() implies has_enough_reporters(
        countries,
        k_anon,
        code,
        (#[trigger] hints[i]).mask_id,
    ) by {
        hints_are_k_anonymous(hints, countries, k_anon, code, i);
    }
}

proof fn lemma_first_match(cache: Seq<CacheView>, code: Seq<u8>, at: int, from: int)
    requires
        0 <= from <= at < cache.len(),
        cache[at].code == code,
        forall|i: int| from <= i < at ==> (#[trigger] cache[i]).code != code,
    ensures
        cache_pos(cache, code, from) == at,
    decreases at - from,
{
    if from < at {
        lemma_first_match(cache, code, at, from + 1);
    }
}

/// A report's vote on a mask says that it worked exactly where some entry for the mask claims a
/// success, and that it failed exactly where some entry claims a failure, whatever else the
/// entries claim. A mask that no entry names has no vote, nor one whose id is too long.
pub proof fn vote_says_what_the_entries_claim(entries: Seq<OutcomeView>, k: int)
    requires
        0 <= k < tally(entries).len(),
    ensures
        ({
            let v = tally(entries)[k];
            &&& encode_utf8(v.mask_id).len() <= 64
            &&& exists|i: int| 0 <= i < entries.len() && (#[trigger] entries[i]).mask_id == v.mask_id
            &&& v.success <==> exists|i: int|
                0 <= i < entries.len() && (#[trigger] entries[i]).mask_id == v.mask_id
                    && entries[i].success > 0
            &&& v.fail <==> exists|i: int|
                0 <= i < entries.len() && (#[trigger] entries[i]).mask_id == v.mask_id
                    && entries[i].fail > 0
        }),
    decreases entries.len(),
{
    let n = entries.len() - 1;
    let rest = entries.drop_last();
    let votes = tally(rest);
    let e = entries.last();
    let v = tally(entries)[k];
    assert(entries[n] == e);
    assert(forall|i: int| 0 <= i < n ==> #[trigger] entries[i] == rest[i]);
    lemma_vote_pos(votes, e.mask_id, 0);
    tally_has_one_vote_per_mask(rest);
    let p = vote_pos(votes, e.mask_id, 0);
    if k < votes.len() {
        vote_says_what_the_entries_claim(rest, k);
        let w = votes[k];
        assert(v.mask_id == w.mask_id);
        let named = choose|i: int|
            0 <= i < rest.len() && (#[trigger] rest[i]).mask_id == w.mask_id;
        assert(entries[named].mask_id == v.mask_id);
        if w.success {
            let i = choose|i: int|
                0 <= i < rest.len() && (#[trigger] rest[i]).mask_id == w.mask_id && rest[i].success
                    > 0;
            assert(entries[i].success > 0);
        }
        if w.fail {
            let i = choose|i: int|
                0 <= i < rest.len() && (#[trigger] rest[i]).mask_id == w.mask_id && rest[i].fail
                    > 0;
            assert(entries[i].fail > 0);
        }
        if e.mask_id == w.mask_id {
            assert(p == k);
        }
        assert forall|i: int|
            0 <= i < entries.len() && (#[trigger] entries[i]).mask_id == v.mask_id
                && entries[i].success > 0 implies v.success by {
            if i < n {
                assert(rest[i].success > 0);
            }
        }
        assert forall|i: int|
            0 <= i < entries.len() && (#[trigger] entries[i]).mask_id == v.mask_id
                && entries[i].fail > 0 implies v.fail by {
            if i < n {
                assert(rest[i].fail > 0);
            }
        }
    } else {
        assert(v.mask_id == e.mask_id);
        assert forall|i: int| 0 <= i < n implies (#[trigger] entries[i]).mask_id != v.mask_id by {
            if rest[i].mask_id == e.mask_id {
                every_named_mask_has_a_vote(rest, i);
            }
        }
    }
}

/// Every mask that an entry names has a vote, as long as its id is not too long.
pub proof fn every_named_mask_has_a_vote(entries: Seq<OutcomeView>, i: int)
    requires
        0 <= i < entries.len(),
        encode_utf8(entries[i].mask_id).len() <= 64,
    ensures
        exists|k: int|
            0 <= k < tally(entries).len() && (#[trigger] tally(entries)[k]).mask_id
                == entries[i].mask_id,
    decreases entries.len(),
{
    let rest = entries.drop_last();
    let votes = tally(rest);
    let e = entries.last();
    lemma_vote_pos(votes, e.mask_id, 0);
    if i < rest.len() {
        every_named_mask_has_a_vote(rest, i);
        let k = choose|k: int|
            0 <= k < votes.len() && (#[trigger] votes[k]).mask_id == rest[i].mask_id;
        assert(tally(entries)[k].mask_id == entries[i].mask_id);
    } else {
        let p = vote_pos(votes, e.mask_id, 0);
        assert(tally(entries)[p].mask_id == entries[i].mask_id);
    }
}

/// Success and failure are symmetric: a report with the two swapped has the same votes, with
/// the two swapped.
pub proof fn votes_swap_with_the_outcomes(entries: Seq<OutcomeView>)
    ensures
        ({
            let swapped = entries.map_values(
                |e: OutcomeView|
                    OutcomeView { mask_id: e.mask_id, success: e.fail, fail: e.success },
            );
            let a = tally(entries);
            let b = tally(swapped);
            &&& a.len() == b.len()
            &&& forall|k: int|
                0 <= k < a.len() ==> (#[trigger] a[k]).mask_id == b[k].mask_id && a[k].success
                    == b[k].fail && a[k].fail == b[k].success
        }),
    decreases entries.len(),
{
    let swap = |e: OutcomeView|
        OutcomeView { mask_id: e.mask_id, success: e.fail, fail: e.success };
    let swapped = entries.map_values(swap);
    if entries.len() > 0 {
        let rest = entries.drop_last();
        votes_swap_with_the_outcomes(rest);
        assert(swapped.drop_last() =~= rest.map_values(swap));
        let e = entries.last();
        lemma_same_vote_pos(tally(rest), tally(rest.map_values(swap)), e.mask_id, 0);
        lemma_vote_pos(tally(rest), e.mask_id, 0);
        assert(swapped.last() == swap(e));
    }
}

proof fn lemma_same_vote_pos(a: Seq<VoteView>, b: Seq<VoteView>, id: Seq<char>, from: int)
    requires
        a.len() == b.len(),
        forall|k: int| 0 <= k < a.len() ==> (#[trigger] a[k]).mask_id == b[k].mask_id,
        0 <= from <= a.len(),
    ensures
        vote_pos(a, id, from) == vote_pos(b, id, from),
    decreases a.len() - from,
{
    if from < a.len() && a[from].mask_id != id {
        lemma_same_vote_pos(a, b, id, from + 1);
    }
}

/// The first 64 entries of a report are read, in their order, and no others.
pub proof fn first_entries_are_read(entries: Seq<OutcomeView>, i: int)
    ensures
        read_part(entries).len() == (if entries.len() < 64 {
            entries.len() as int
        } else {
            64
        }),
        0 <= i < entries.len() && i < 64 ==> read_part(entries)[i] == entries[i],
{
}

/// Answers of the listed countries are forgotten and all others kept; answers are out of use 45
/// seconds after they were worked out, and those in use are kept.
pub proof fn kept_answers_are_the_others(
    cache: Seq<CacheView>,
    list: Seq<Seq<u8>>,
    e: CacheView,
    now: u64,
)
    ensures
        dropped(cache, list).contains(e) <==> cache.contains(e) && !list.contains(e.code),
        unexpired(cache, now).contains(e) <==> cache.contains(e) && now < e.computed_at
            + 45_000_000_000,
        cached(seq![e], e.code, now) == (if now < e.computed_at + 45_000_000_000 {
            Some(e.hints)
        } else {
            None
        }),
{
    let keep = |x: CacheView| !list.contains(x.code);
    let fresh = |x: CacheView| in_use(x, now);
    lemma_filter_is_exact(cache, keep, e);
    lemma_filter_is_exact(cache, fresh, e);
    lemma_cache_pos(seq![e], e.code, 0);
    assert(seq![e][0] == e);
}

proof fn lemma_filter_is_exact(cache: Seq<CacheView>, kept: spec_fn(CacheView) -> bool, e: CacheView)
    ensures
        cache.filter(kept).contains(e) <==> cache.contains(e) && kept(e),
{
    let left = cache.filter(kept);
    if left.contains(e) {
        let k = choose|k: int| 0 <= k < left.len() && left[k] == e;
        cache.lemma_filter_pred(kept, k);
        cache.lemma_filter_contains_rev(kept, e);
    }
    if cache.contains(e) && kept(e) {
        let k = choose|k: int| 0 <= k < cache.len() && cache[k] == e;
        cache.lemma_filter_contains(kept, k);
    }
}

/// An answer is given from the cache exactly where one for that very country is in it and in
/// use, and then it is that country's.
pub proof fn cache_answers_for_its_country(cache: Seq<CacheView>, code: Seq<u8>, now: u64, k: int)
    requires
        0 <= k < cache.len(),
        forall|i: int, j: int|
            0 <= i < j < cache.len() ==> (#[trigger] cache[i]).code != (#[trigger] cache[j]).code,
    ensures
        cache[k].code == code ==> cached(cache, code, now) == (if now < cache[k].computed_at
            + 45_000_000_000 {
            Some(cache[k].hints)
        } else {
            None
        }),
        (forall|i: int| 0 <= i < cache.len() ==> (#[trigger] cache[i]).code != code) ==> cached(
            cache,
            code,
            now,
        ) is None,
{
    lemma_cache_pos(cache, code, 0);
    if cache[k].code == code {
        lemma_first_match(cache, code, k, 0);
    }
}

/// A report moves the counts of a mask that it names by what its entries claim, whatever numbers
/// they claim: by one success exactly where some entry for the mask has a success, and by one
/// failure exactly where some entry has a failure, while there is room for the report.
pub proof fn report_moves_the_counts_that_it_claims(
    m: MapView,
    code: Seq<u8>,
    entries: Seq<OutcomeView>,
    token: Seq<u8>,
    hour: nat,
    i: int,
)
    requires
        well_formed(m.countries),
        m.total + entries.len() <= 100_000,
        masks_of(m.countries, code).len() + entries.len() <= 10_000,
        0 <= i < entries.len(),
        encode_utf8(entries[i].mask_id).len() <= 64,
    ensures
        ({
            let id = entries[i].mask_id;
            let was = bucket_at(m.countries, code, id);
            let got = bucket_at(
                cast_all(m, code, tally(entries), token, hour).countries,
                code,
                id,
            );
            let success = if was is Some {
                was->0.success
            } else {
                0
            };
            let fail = if was is Some {
                was->0.fail
            } else {
                0
            };
            let worked = exists|j: int|
                0 <= j < entries.len() && (#[trigger] entries[j]).mask_id == id
                    && entries[j].success > 0;
            let failed = exists|j: int|
                0 <= j < entries.len() && (#[trigger] entries[j]).mask_id == id
                    && entries[j].fail > 0;
            &&& got is Some
            &&& success < u64::MAX ==> got->0.success == success + (if worked {
                1int
            } else {
                0
            })
            &&& fail < u64::MAX ==> got->0.fail == fail + (if failed {
                1int
            } else {
                0
            })
        }),
{
    let votes = tally(entries);
    tally_has_one_vote_per_mask(entries);
    every_named_mask_has_a_vote(entries, i);
    let k = choose|k: int|
        0 <= k < votes.len() && (#[trigger] votes[k]).mask_id == entries[i].mask_id;
    vote_says_what_the_entries_claim(entries, k);
    report_counts_each_vote_once(m, code, votes, token, hour, k, entries[i].mask_id);
}

} // verus!
