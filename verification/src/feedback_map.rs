//! The table of feedback buckets: one bucket per country and mask, capped in number.

use crate::hll::{blank, observe, Hll};
use vstd::prelude::*;

verus! {

/// Most buckets kept over all countries.
pub const MAX_BUCKETS: usize = 100_000;

/// Most buckets kept for one country.
pub const MAX_BUCKETS_PER_COUNTRY: usize = 10_000;

/// How many buckets are looked at for the oldest when the table is full.
pub const EVICTION_SAMPLE_SIZE: usize = 32;

/// What has been reported of one mask in one country.
#[derive(Debug)]
pub struct MaskBucket {
    pub success_count: u64,
    pub fail_count: u64,
    pub reporters: Hll,
    pub last_updated_hour: u64,
}

/// A mask and its bucket.
pub struct MaskEntry {
    pub mask_id: String,
    pub bucket: MaskBucket,
}

/// The buckets of one country.
pub struct CountryBuckets {
    pub code: [u8; 2],
    pub masks: Vec<MaskEntry>,
}

/// All buckets, with their number.
pub struct FeedbackMap {
    pub countries: Vec<CountryBuckets>,
    pub total_buckets: usize,
}

/// One reporter's verdict on one mask.
pub struct Vote {
    pub mask_id: String,
    pub success: bool,
    pub fail: bool,
}

#[verifier::ext_equal]
pub struct BucketView {
    pub success: nat,
    pub fail: nat,
    pub reporters: Seq<u8>,
    pub hour: nat,
}

#[verifier::ext_equal]
pub struct EntryView {
    pub mask_id: Seq<char>,
    pub bucket: BucketView,
}

#[verifier::ext_equal]
pub struct CountryView {
    pub code: Seq<u8>,
    pub masks: Seq<EntryView>,
}

#[verifier::ext_equal]
pub struct MapView {
    pub countries: Seq<CountryView>,
    pub total: nat,
}

#[verifier::ext_equal]
pub struct VoteView {
    pub mask_id: Seq<char>,
    pub success: bool,
    pub fail: bool,
}

impl View for MaskBucket {
    type V = BucketView;

    open spec fn view(&self) -> BucketView {
        BucketView {
            success: self.success_count as nat,
            fail: self.fail_count as nat,
            reporters: self.reporters@,
            hour: self.last_updated_hour as nat,
        }
    }
}

impl View for MaskEntry {
    type V = EntryView;

    open spec fn view(&self) -> EntryView {
        EntryView { mask_id: self.mask_id@, bucket: self.bucket@ }
    }
}

/// The views of a list of entries.
pub open spec fn entries_view(masks: Seq<MaskEntry>) -> Seq<EntryView> {
    masks.map_values(|e: MaskEntry| e@)
}

impl View for CountryBuckets {
    type V = CountryView;

    open spec fn view(&self) -> CountryView {
        CountryView { code: self.code@, masks: entries_view(self.masks@) }
    }
}

/// The views of a list of countries.
pub open spec fn countries_view(countries: Seq<CountryBuckets>) -> Seq<CountryView> {
    countries.map_values(|c: CountryBuckets| c@)
}

impl View for FeedbackMap {
    type V = MapView;

    open spec fn view(&self) -> MapView {
        MapView {
            countries: countries_view(self.countries@),
            total: self.total_buckets as nat,
        }
    }
}

impl View for Vote {
    type V = VoteView;

    open spec fn view(&self) -> VoteView {
        VoteView { mask_id: self.mask_id@, success: self.success, fail: self.fail }
    }
}

/// Where a mask stands in a list from `from` on; the length where it does not.
pub open spec fn mask_pos(masks: Seq<EntryView>, id: Seq<char>, from: int) -> int
    decreases masks.len() - from,
{
    if from >= masks.len() {
        masks.len() as int
    } else if masks[from].mask_id == id {
        from
    } else {
        mask_pos(masks, id, from + 1)
    }
}

/// Where a country stands in a list from `from` on; the length where it does not.
pub open spec fn country_pos(countries: Seq<CountryView>, code: Seq<u8>, from: int) -> int
    decreases countries.len() - from,
{
    if from >= countries.len() {
        countries.len() as int
    } else if countries[from].code == code {
        from
    } else {
        country_pos(countries, code, from + 1)
    }
}

/// The entries of a country; none where it is not listed.
pub open spec fn masks_of(countries: Seq<CountryView>, code: Seq<u8>) -> Seq<EntryView> {
    let ci = country_pos(countries, code, 0);
    if ci < countries.len() {
        countries[ci].masks
    } else {
        seq![]
    }
}

/// The bucket of a mask in a list of entries.
pub open spec fn bucket_in(masks: Seq<EntryView>, id: Seq<char>) -> Option<BucketView> {
    let mi = mask_pos(masks, id, 0);
    if mi < masks.len() {
        Some(masks[mi].bucket)
    } else {
        None
    }
}

/// The bucket of a mask in a country.
pub open spec fn bucket_at(
    countries: Seq<CountryView>,
    code: Seq<u8>,
    id: Seq<char>,
) -> Option<BucketView> {
    bucket_in(masks_of(countries, code), id)
}

/// No mask is listed twice.
pub open spec fn distinct_masks(masks: Seq<EntryView>) -> bool {
    forall|i: int, j: int|
        0 <= i < j < masks.len() ==> #[trigger] masks[i].mask_id != #[trigger] masks[j].mask_id
}

/// No country is listed twice, none is empty, and none lists a mask twice.
pub open spec fn well_formed(countries: Seq<CountryView>) -> bool {
    &&& forall|i: int, j: int|
        0 <= i < j < countries.len() ==> #[trigger] countries[i].code != #[trigger] countries[j].code
    &&& forall|i: int|
        0 <= i < countries.len() ==> distinct_masks((#[trigger] countries[i]).masks)
            && countries[i].masks.len() > 0
}

/// How many buckets the first `n` countries hold.
pub open spec fn buckets_before(countries: Seq<CountryView>, n: int) -> nat
    decreases n,
{
    if n <= 0 {
        0
    } else {
        buckets_before(countries, n - 1) + countries[n - 1].masks.len()
    }
}

/// How many buckets there are.
pub open spec fn bucket_sum(countries: Seq<CountryView>) -> nat {
    buckets_before(countries, countries.len() as int)
}

/// The recorded number of buckets is their actual number.
pub open spec fn counted(m: MapView) -> bool {
    m.total == bucket_sum(m.countries)
}

/// A bucket's place in the order of countries and, within each, of masks.
pub open spec fn bucket_rank(countries: Seq<CountryView>, ci: int, mi: int) -> int {
    buckets_before(countries, ci) + mi
}

/// `(ci, mi)` names a bucket.
pub open spec fn is_bucket(countries: Seq<CountryView>, ci: int, mi: int) -> bool {
    0 <= ci < countries.len() && 0 <= mi < countries[ci].masks.len()
}

/// `(ci, mi)` is among the buckets considered for eviction.
pub open spec fn in_sample(countries: Seq<CountryView>, ci: int, mi: int) -> bool {
    is_bucket(countries, ci, mi) && bucket_rank(countries, ci, mi) < EVICTION_SAMPLE_SIZE
}

/// The hour in which a bucket was last updated.
pub open spec fn hour_at(countries: Seq<CountryView>, ci: int, mi: int) -> nat {
    countries[ci].masks[mi].bucket.hour
}

/// `(ci, mi)` is the least recently updated bucket of the sample, the first of several.
pub open spec fn is_victim(countries: Seq<CountryView>, ci: int, mi: int) -> bool {
    &&& in_sample(countries, ci, mi)
    &&& forall|cj: int, mj: int| #[trigger]
        in_sample(countries, cj, mj) ==> {
            &&& hour_at(countries, ci, mi) <= hour_at(countries, cj, mj)
            &&& bucket_rank(countries, cj, mj) < bucket_rank(countries, ci, mi) ==> hour_at(
                countries,
                ci,
                mi,
            ) < hour_at(countries, cj, mj)
        }
}

/// The table without one bucket, and without its country where that was its last.
pub open spec fn without_bucket(
    countries: Seq<CountryView>,
    ci: int,
    mi: int,
) -> Seq<CountryView> {
    let left = countries[ci].masks.remove(mi);
    if left.len() == 0 {
        countries.remove(ci)
    } else {
        countries.update(ci, CountryView { code: countries[ci].code, masks: left })
    }
}

/// One less, but never below zero.
pub open spec fn less_one(n: nat) -> nat {
    if n > 0 {
        (n - 1) as nat
    } else {
        0
    }
}

/// The table after its oldest sampled bucket has been given up.
pub open spec fn evicted(m: MapView) -> MapView {
    let v = choose|v: (int, int)| is_victim(m.countries, v.0, v.1);
    MapView { countries: without_bucket(m.countries, v.0, v.1), total: less_one(m.total) }
}

/// `i` is the least recently updated entry of a list, the first of several.
pub open spec fn is_oldest(masks: Seq<EntryView>, i: int) -> bool {
    &&& 0 <= i < masks.len()
    &&& forall|j: int|
        0 <= j < masks.len() ==> {
            &&& masks[i].bucket.hour <= (#[trigger] masks[j]).bucket.hour
            &&& j < i ==> masks[i].bucket.hour < masks[j].bucket.hour
        }
}

/// A list of entries after its oldest has been given up.
pub open spec fn without_oldest(masks: Seq<EntryView>) -> Seq<EntryView> {
    masks.remove(choose|i: int| is_oldest(masks, i))
}

/// The table after a country has given up its own oldest bucket.
pub open spec fn evicted_from(m: MapView, code: Seq<u8>) -> MapView {
    let ci = country_pos(m.countries, code, 0);
    MapView {
        countries: m.countries.update(
            ci,
            CountryView {
                code: m.countries[ci].code,
                masks: without_oldest(m.countries[ci].masks),
            },
        ),
        total: less_one(m.total),
    }
}

/// A count after one more vote, which the counter's width bounds.
pub open spec fn plus_vote(count: nat, vote: bool) -> nat {
    if vote && count < u64::MAX {
        count + 1
    } else {
        count
    }
}

/// A bucket that nobody has reported to.
pub open spec fn fresh_bucket() -> BucketView {
    BucketView { success: 0, fail: 0, reporters: blank(), hour: 0 }
}

/// A bucket after one reporter's vote.
pub open spec fn voted(b: BucketView, vote: VoteView, token: Seq<u8>, hour: nat) -> BucketView {
    BucketView {
        success: plus_vote(b.success, vote.success),
        fail: plus_vote(b.fail, vote.fail),
        reporters: observe(b.reporters, token),
        hour,
    }
}

/// A list of entries after one reporter's vote on one mask.
pub open spec fn masks_voted(
    masks: Seq<EntryView>,
    vote: VoteView,
    token: Seq<u8>,
    hour: nat,
) -> Seq<EntryView> {
    let mi = mask_pos(masks, vote.mask_id, 0);
    if mi < masks.len() {
        masks.update(
            mi,
            EntryView {
                mask_id: masks[mi].mask_id,
                bucket: voted(masks[mi].bucket, vote, token, hour),
            },
        )
    } else {
        masks.push(
            EntryView {
                mask_id: vote.mask_id,
                bucket: voted(fresh_bucket(), vote, token, hour),
            },
        )
    }
}

/// All countries after one reporter's vote in one of them.
pub open spec fn countries_voted(
    countries: Seq<CountryView>,
    code: Seq<u8>,
    vote: VoteView,
    token: Seq<u8>,
    hour: nat,
) -> Seq<CountryView> {
    let ci = country_pos(countries, code, 0);
    if ci < countries.len() {
        countries.update(
            ci,
            CountryView {
                code: countries[ci].code,
                masks: masks_voted(countries[ci].masks, vote, token, hour),
            },
        )
    } else {
        countries.push(CountryView { code, masks: masks_voted(seq![], vote, token, hour) })
    }
}

/// Room made for one more bucket in `code`: first below the overall cap, then below the
/// country's.
pub open spec fn room_made(m: MapView, code: Seq<u8>) -> MapView {
    let m1 = if m.total >= MAX_BUCKETS {
        evicted(m)
    } else {
        m
    };
    if masks_of(m1.countries, code).len() >= MAX_BUCKETS_PER_COUNTRY {
        evicted_from(m1, code)
    } else {
        m1
    }
}

/// The table after one reporter's vote in a country.
pub open spec fn cast(
    m: MapView,
    code: Seq<u8>,
    vote: VoteView,
    token: Seq<u8>,
    hour: nat,
) -> MapView {
    if bucket_at(m.countries, code, vote.mask_id) is Some {
        MapView {
            countries: countries_voted(m.countries, code, vote, token, hour),
            total: m.total,
        }
    } else if m.total >= MAX_BUCKETS && bucket_sum(m.countries) == 0 {
        m
    } else {
        let m2 = room_made(m, code);
        MapView {
            countries: countries_voted(m2.countries, code, vote, token, hour),
            total: m2.total + 1,
        }
    }
}

/// The table after all votes of one report.
pub open spec fn cast_all(
    m: MapView,
    code: Seq<u8>,
    votes: Seq<VoteView>,
    token: Seq<u8>,
    hour: nat,
) -> MapView
    decreases votes.len(),
{
    if votes.len() == 0 {
        m
    } else {
        cast(cast_all(m, code, votes.drop_last(), token, hour), code, votes.last(), token, hour)
    }
}

/// An entry is recent enough to stay.
pub open spec fn recent(e: EntryView, now_hour: nat, max_age_hours: nat) -> bool {
    now_hour <= e.bucket.hour + max_age_hours
}

/// The recent entries of a list.
pub open spec fn recent_masks(masks: Seq<EntryView>, now_hour: nat, max_age: nat) -> Seq<EntryView> {
    masks.filter(|e: EntryView| recent(e, now_hour, max_age))
}

/// The first `n` countries with their recent entries only, countries without any left out.
pub open spec fn swept(
    countries: Seq<CountryView>,
    n: int,
    now_hour: nat,
    max_age: nat,
) -> Seq<CountryView>
    decreases n,
{
    if n <= 0 {
        seq![]
    } else {
        let before = swept(countries, n - 1, now_hour, max_age);
        let masks = recent_masks(countries[n - 1].masks, now_hour, max_age);
        if masks.len() == 0 {
            before
        } else {
            before.push(CountryView { code: countries[n - 1].code, masks })
        }
    }
}

impl Clone for MaskBucket {
    fn clone(&self) -> (bucket: MaskBucket)
        ensures
            bucket@ == self@,
    {
        MaskBucket {
            success_count: self.success_count,
            fail_count: self.fail_count,
            reporters: self.reporters.clone(),
            last_updated_hour: self.last_updated_hour,
        }
    }
}

impl MaskBucket {
    /// A bucket that nobody has reported to.
    pub fn new() -> (bucket: MaskBucket)
        ensures
            bucket@ == fresh_bucket(),
    {
        MaskBucket {
            success_count: 0,
            fail_count: 0,
            reporters: Hll::new(),
            last_updated_hour: 0,
        }
    }

    /// Counts one reporter's vote.
    fn vote(&mut self, success: bool, fail: bool, token: &[u8], hour: u64)
        ensures
            forall|id: Seq<char>|
                final(self)@ == voted(
                    old(self)@,
                    (VoteView { mask_id: id, success, fail }),
                    token@,
                    hour as nat,
                ),
    {
        if success && self.success_count < u64::MAX {
            self.success_count = self.success_count + 1;
        }
        if fail && self.fail_count < u64::MAX {
            self.fail_count = self.fail_count + 1;
        }
        self.reporters.add(token);
        self.last_updated_hour = hour;
    }
}

/// Position of a mask in a list of entries, or the list's length.
fn find_mask(masks: &Vec<MaskEntry>, id: &String) -> (mi: usize)
    ensures
        mi == mask_pos(entries_view(masks@), id@, 0),
        mi <= masks@.len(),
{
    let ghost v = entries_view(masks@);
    let mut i: usize = 0;
    while i < masks.len()
        invariant
            i <= masks.len(),
            v == entries_view(masks@),
            mask_pos(v, id@, 0) == mask_pos(v, id@, i as int),
        decreases masks.len() - i,
    {
        assert(v[i as int].mask_id == masks@[i as int].mask_id@);
        if masks[i].mask_id == *id {
            return i;
        }
        i += 1;
    }
    i
}

/// Position of a country in a list, or the list's length.
pub(crate) fn find_country(countries: &Vec<CountryBuckets>, code: &[u8; 2]) -> (ci: usize)
    ensures
        ci == country_pos(countries_view(countries@), code@, 0),
        ci <= countries@.len(),
{
    let ghost v = countries_view(countries@);
    let mut i: usize = 0;
    while i < countries.len()
        invariant
            i <= countries.len(),
            v == countries_view(countries@),
            country_pos(v, code@, 0) == country_pos(v, code@, i as int),
        decreases countries.len() - i,
    {
        assert(v[i as int].code == countries@[i as int].code@);
        if countries[i].code[0] == code[0] && countries[i].code[1] == code[1] {
            assert(v[i as int].code =~= code@);
            return i;
        }
        i += 1;
    }
    i
}

proof fn lemma_before_monotone(countries: Seq<CountryView>, i: int, j: int)
    requires
        0 <= i <= j,
    ensures
        buckets_before(countries, i) <= buckets_before(countries, j),
    decreases j - i,
{
    if i < j {
        lemma_before_monotone(countries, i, j - 1);
    }
}

/// Different buckets have different places.
proof fn lemma_rank_injective(countries: Seq<CountryView>, ci: int, mi: int, cj: int, mj: int)
    requires
        is_bucket(countries, ci, mi),
        is_bucket(countries, cj, mj),
        bucket_rank(countries, ci, mi) == bucket_rank(countries, cj, mj),
    ensures
        ci == cj && mi == mj,
{
    if ci < cj {
        lemma_before_monotone(countries, ci + 1, cj);
    } else if cj < ci {
        lemma_before_monotone(countries, cj + 1, ci);
    }
}

proof fn lemma_rank_below_sum(countries: Seq<CountryView>, ci: int, mi: int)
    requires
        is_bucket(countries, ci, mi),
    ensures
        bucket_rank(countries, ci, mi) < bucket_sum(countries),
{
    lemma_before_monotone(countries, ci + 1, countries.len() as int);
}

/// No two buckets are both the one to give up.
pub proof fn victim_is_unique(countries: Seq<CountryView>, ci: int, mi: int, cj: int, mj: int)
    requires
        is_victim(countries, ci, mi),
        is_victim(countries, cj, mj),
    ensures
        ci == cj && mi == mj,
{
    assert(in_sample(countries, ci, mi));
    assert(in_sample(countries, cj, mj));
    if bucket_rank(countries, ci, mi) == bucket_rank(countries, cj, mj) {
        lemma_rank_injective(countries, ci, mi, cj, mj);
    }
}

/// No two entries are both the oldest of a list.
pub proof fn oldest_is_unique(masks: Seq<EntryView>, i: int, j: int)
    requires
        is_oldest(masks, i),
        is_oldest(masks, j),
    ensures
        i == j,
{
    assert(masks[i].bucket.hour == masks[j].bucket.hour);
}

/// Gives up the least recently updated entry of a list. `false` where there is none.
pub fn evict_one_within_country(masks: &mut Vec<MaskEntry>) -> (done: bool)
    ensures
        done == (old(masks)@.len() > 0),
        done ==> entries_view(final(masks)@) == without_oldest(entries_view(old(masks)@)),
        !done ==> final(masks)@ == old(masks)@,
{
    if masks.len() == 0 {
        return false;
    }
    let ghost v = entries_view(masks@);
    let mut best: usize = 0;
    let mut i: usize = 1;
    while i < masks.len()
        invariant
            best < i <= masks.len(),
            v == entries_view(masks@),
            forall|j: int|
                0 <= j < i ==> v[best as int].bucket.hour <= (#[trigger] v[j]).bucket.hour,
            forall|j: int|
                0 <= j < best ==> v[best as int].bucket.hour < (#[trigger] v[j]).bucket.hour,
        decreases masks.len() - i,
    {
        assert(v[i as int].bucket.hour == masks@[i as int].bucket.last_updated_hour);
        assert(v[best as int].bucket.hour == masks@[best as int].bucket.last_updated_hour);
        if masks[i].bucket.last_updated_hour < masks[best].bucket.last_updated_hour {
            best = i;
        }
        i += 1;
    }
    proof {
        assert(is_oldest(v, best as int));
        oldest_is_unique(v, best as int, choose|k: int| is_oldest(v, k));
    }
    masks.remove(best);
    assert(entries_view(masks@) =~= v.remove(best as int));
    true
}

impl FeedbackMap {
    /// A table without buckets.
    pub fn new() -> (map: FeedbackMap)
        ensures
            map@ == (MapView { countries: seq![], total: 0 }),
    {
        let map = FeedbackMap { countries: Vec::new(), total_buckets: 0 };
        assert(countries_view(map.countries@) =~= seq![]);
        map
    }

    /// The bucket of a mask in a country.
    pub fn bucket(&self, code: &[u8; 2], mask_id: &String) -> (bucket: Option<&MaskBucket>)
        ensures
            match bucket {
                Some(b) => bucket_at(self@.countries, code@, mask_id@) == Some(b@),
                None => bucket_at(self@.countries, code@, mask_id@) is None,
            },
    {
        let ci: usize = find_country(&self.countries, code);
        if ci == self.countries.len() {
            return None;
        }
        assert(self@.countries[ci as int] == self.countries@[ci as int]@);
        let mi: usize = find_mask(&self.countries[ci].masks, mask_id);
        if mi == self.countries[ci].masks.len() {
            return None;
        }
        Some(&self.countries[ci].masks[mi].bucket)
    }

    /// Gives up the least recently updated of the first [`EVICTION_SAMPLE_SIZE`] buckets.
    /// `false` where there is none.
    pub fn evict_one(&mut self) -> (done: bool)
        ensures
            done == (bucket_sum(old(self)@.countries) > 0),
            done ==> final(self)@ == evicted(old(self)@),
            !done ==> final(self)@ == old(self)@,
    {
        let ghost v = countries_view(self.countries@);
        let mut found: bool = false;
        let mut best_ci: usize = 0;
        let mut best_mi: usize = 0;
        let mut best_hour: u64 = 0;
        let mut seen: usize = 0;
        let mut ci: usize = 0;
        while ci < self.countries.len() && seen < EVICTION_SAMPLE_SIZE
            invariant
                ci <= self.countries.len(),
                v == countries_view(self.countries@),
                self.countries@ == old(self).countries@,
                self.total_buckets == old(self).total_buckets,
                seen < EVICTION_SAMPLE_SIZE ==> seen == buckets_before(v, ci as int),
                seen <= EVICTION_SAMPLE_SIZE,
                found == (seen > 0),
                found ==> is_bucket(v, best_ci as int, best_mi as int) && bucket_rank(
                    v,
                    best_ci as int,
                    best_mi as int,
                ) < seen && best_hour == hour_at(v, best_ci as int, best_mi as int),
                forall|cj: int, mj: int| #[trigger]
                    is_bucket(v, cj, mj) && bucket_rank(v, cj, mj) < seen ==> {
                        &&& best_hour <= hour_at(v, cj, mj)
                        &&& bucket_rank(v, cj, mj) < bucket_rank(
                            v,
                            best_ci as int,
                            best_mi as int,
                        ) ==> best_hour < hour_at(v, cj, mj)
                    },
            decreases self.countries.len() - ci,
        {
            let mut mi: usize = 0;
            assert(v[ci as int].masks == entries_view(self.countries@[ci as int].masks@));
            while mi < self.countries[ci as usize].masks.len() && seen < EVICTION_SAMPLE_SIZE
                invariant
                    ci < self.countries.len(),
                    v == countries_view(self.countries@),
                    v[ci as int].masks == entries_view(self.countries@[ci as int].masks@),
                    self.countries@ == old(self).countries@,
                    self.total_buckets == old(self).total_buckets,
                    mi <= v[ci as int].masks.len(),
                    seen == buckets_before(v, ci as int) + mi,
                    seen <= EVICTION_SAMPLE_SIZE,
                    found == (seen > 0),
                    found ==> is_bucket(v, best_ci as int, best_mi as int) && bucket_rank(
                        v,
                        best_ci as int,
                        best_mi as int,
                    ) < seen && best_hour == hour_at(v, best_ci as int, best_mi as int),
                    forall|cj: int, mj: int| #[trigger]
                        is_bucket(v, cj, mj) && bucket_rank(v, cj, mj) < seen ==> {
                            &&& best_hour <= hour_at(v, cj, mj)
                            &&& bucket_rank(v, cj, mj) < bucket_rank(
                                v,
                                best_ci as int,
                                best_mi as int,
                            ) ==> best_hour < hour_at(v, cj, mj)
                        },
                decreases self.countries@[ci as int].masks@.len() - mi,
            {
                let hour: u64 = self.countries[ci].masks[mi].bucket.last_updated_hour;
                proof {
                    assert(is_bucket(v, ci as int, mi as int));
                    assert(hour == hour_at(v, ci as int, mi as int));
                    assert forall|cj: int, mj: int| #[trigger]
                        is_bucket(v, cj, mj) && bucket_rank(v, cj, mj) == seen implies cj == ci
                        && mj == mi by {
                        lemma_rank_injective(v, cj, mj, ci as int, mi as int);
                    }
                }
                if !found || hour < best_hour {
                    found = true;
                    best_ci = ci;
                    best_mi = mi;
                    best_hour = hour;
                }
                mi += 1;
                seen += 1;
            }
            ci += 1;
        }
        if !found {
            proof {
                assert(ci == v.len());
            }
            return false;
        }
        proof {
            assert forall|cj: int, mj: int| #[trigger] in_sample(v, cj, mj) implies bucket_rank(
                v,
                cj,
                mj,
            ) < seen by {
                lemma_rank_below_sum(v, cj, mj);
            }
            assert(is_victim(v, best_ci as int, best_mi as int));
            let w = choose|w: (int, int)| is_victim(v, w.0, w.1);
            assert(is_victim(v, (best_ci as int, best_mi as int).0, (best_ci as int, best_mi as int).1));
            victim_is_unique(v, best_ci as int, best_mi as int, w.0, w.1);
            lemma_rank_below_sum(v, best_ci as int, best_mi as int);
        }
        self.remove_at(best_ci, best_mi);
        if self.total_buckets > 0 {
            self.total_buckets = self.total_buckets - 1;
        }
        true
    }

    fn remove_at(&mut self, ci: usize, mi: usize)
        requires
            is_bucket(old(self)@.countries, ci as int, mi as int),
        ensures
            final(self)@.countries == without_bucket(old(self)@.countries, ci as int, mi as int),
            final(self).total_buckets == old(self).total_buckets,
    {
        let ghost v = countries_view(self.countries@);
        let ghost c = self.countries@[ci as int];
        assert(v[ci as int] == c@);
        self.countries[ci].masks.remove(mi);
        assert(entries_view(self.countries@[ci as int].masks@) =~= entries_view(c.masks@).remove(
            mi as int,
        ));
        if self.countries[ci].masks.len() == 0 {
            self.countries.remove(ci);
            assert(countries_view(self.countries@) =~= v.remove(ci as int));
        } else {
            assert(countries_view(self.countries@) =~= without_bucket(v, ci as int, mi as int));
        }
    }

    /// Counts one reporter's vote on one mask, making room for a new bucket where needed.
    pub fn cast_vote(&mut self, code: [u8; 2], vote: &Vote, token: &[u8], hour: u64)
        ensures
            final(self)@ == cast(old(self)@, code@, vote@, token@, hour as nat),
    {
        let known: bool = self.bucket(&code, &vote.mask_id).is_some();
        if !known {
            if self.total_buckets >= MAX_BUCKETS {
                if !self.evict_one() {
                    return;
                }
            }
            let ghost m1 = self@;
            let at: usize = find_country(&self.countries, &code);
            if at < self.countries.len() {
                assert(m1.countries[at as int] == self.countries@[at as int]@);
                if self.countries[at].masks.len() >= MAX_BUCKETS_PER_COUNTRY {
                    let ghost c = self.countries@[at as int];
                    evict_one_within_country(&mut self.countries[at].masks);
                    if self.total_buckets > 0 {
                        self.total_buckets = self.total_buckets - 1;
                    }
                    assert(countries_view(self.countries@) =~= evicted_from(m1, code@).countries);
                }
            }
            assert(self@ =~= room_made(old(self)@, code@));
        }
        let ghost m2 = self@;
        let mut ci: usize = find_country(&self.countries, &code);
        if ci == self.countries.len() {
            self.countries.push(CountryBuckets { code, masks: Vec::new() });
            assert(entries_view(self.countries@[ci as int].masks@) =~= seq![]);
        }
        let ghost c = self.countries@[ci as int];
        let ghost base = countries_view(self.countries@);
        assert(base[ci as int] == c@);
        let mi: usize = find_mask(&self.countries[ci].masks, &vote.mask_id);
        if mi == self.countries[ci].masks.len() {
            let mut bucket: MaskBucket = MaskBucket::new();
            bucket.vote(vote.success, vote.fail, token, hour);
            self.countries[ci].masks.push(MaskEntry { mask_id: vote.mask_id.clone(), bucket });
        } else {
            self.countries[ci].masks[mi].bucket.vote(vote.success, vote.fail, token, hour);
        }
        proof {
            let now = self.countries@[ci as int];
            assert(entries_view(now.masks@) =~= masks_voted(
                entries_view(c.masks@),
                vote@,
                token@,
                hour as nat,
            ));
            assert(countries_view(self.countries@) =~= countries_voted(
                m2.countries,
                code@,
                vote@,
                token@,
                hour as nat,
            ));
        }
        if !known {
            self.total_buckets = self.total_buckets + 1;
        }
    }

    /// Drops every bucket that has not been updated for more than `max_age_hours`, and every
    /// country left without one. Returns how many buckets went.
    pub fn sweep(&mut self, now_hour: u64, max_age_hours: u64) -> (removed: usize)
        requires
            bucket_sum(old(self)@.countries) <= usize::MAX,
        ensures
            final(self)@.countries == swept(
                old(self)@.countries,
                old(self)@.countries.len() as int,
                now_hour as nat,
                max_age_hours as nat,
            ),
            removed == bucket_sum(old(self)@.countries) - bucket_sum(final(self)@.countries),
            final(self)@.total == (if old(self)@.total >= removed {
                (old(self)@.total - removed) as nat
            } else {
                0
            }),
    {
        let ghost v = countries_view(self.countries@);
        let mut old_countries: Vec<CountryBuckets> = Vec::new();
        std::mem::swap(&mut old_countries, &mut self.countries);
        let ghost olds = old_countries@;
        let mut kept_countries: Vec<CountryBuckets> = Vec::new();
        let mut removed: usize = 0;
        let total: usize = self.total_buckets;
        assert(countries_view(kept_countries@) =~= swept(v, 0, now_hour as nat, max_age_hours as nat));
        for c in it: old_countries
            invariant
                it.seq() == olds,
                v == countries_view(olds),
                bucket_sum(v) <= usize::MAX,
                total == old(self).total_buckets,
                countries_view(kept_countries@) == swept(
                    v,
                    it.index() as int,
                    now_hour as nat,
                    max_age_hours as nat,
                ),
                removed + bucket_sum(countries_view(kept_countries@)) == buckets_before(
                    v,
                    it.index() as int,
                ),
        {
            let ghost n = it.index() as int;
            let CountryBuckets { code, masks } = c;
            let ghost mv = entries_view(masks@);
            proof {
                assert(v[n].masks == mv);
                lemma_before_monotone(v, n + 1, v.len() as int);
            }
            let before: usize = masks.len();
            let kept: Vec<MaskEntry> = keep_recent(masks, now_hour, max_age_hours);
            proof {
                lemma_recent_shorter(mv, now_hour as nat, max_age_hours as nat);
            }
            removed = removed + (before - kept.len());
            if kept.len() > 0 {
                let ghost pre = countries_view(kept_countries@);
                kept_countries.push(CountryBuckets { code, masks: kept });
                proof {
                    assert(countries_view(kept_countries@) =~= swept(
                        v,
                        n + 1,
                        now_hour as nat,
                        max_age_hours as nat,
                    ));
                    lemma_before_push(pre, kept_countries@.last()@);
                }
            }
        }
        self.countries = kept_countries;
        if total >= removed {
            self.total_buckets = total - removed;
        } else {
            self.total_buckets = 0;
        }
        removed
    }
}

proof fn lemma_recent_shorter(masks: Seq<EntryView>, now_hour: nat, max_age: nat)
    ensures
        recent_masks(masks, now_hour, max_age).len() <= masks.len(),
{
    masks.lemma_filter_len(|e: EntryView| recent(e, now_hour, max_age));
}

proof fn lemma_before_prefix(a: Seq<CountryView>, b: Seq<CountryView>, n: int)
    requires
        0 <= n <= a.len(),
        n <= b.len(),
        forall|i: int| 0 <= i < n ==> #[trigger] a[i].masks.len() == #[trigger] b[i].masks.len(),
    ensures
        buckets_before(a, n) == buckets_before(b, n),
    decreases n,
{
    if n > 0 {
        assert(a[n - 1].masks.len() == b[n - 1].masks.len());
        lemma_before_prefix(a, b, n - 1);
    }
}

proof fn lemma_before_push(countries: Seq<CountryView>, c: CountryView)
    ensures
        bucket_sum(countries.push(c)) == bucket_sum(countries) + c.masks.len(),
{
    lemma_before_prefix(countries, countries.push(c), countries.len() as int);
}

/// The entries updated within the last `max_age_hours`, in their order.
fn keep_recent(masks: Vec<MaskEntry>, now_hour: u64, max_age_hours: u64) -> (kept: Vec<MaskEntry>)
    ensures
        entries_view(kept@) == recent_masks(
            entries_view(masks@),
            now_hour as nat,
            max_age_hours as nat,
        ),
{
    let ghost v = entries_view(masks@);
    let ghost all = masks@;
    let ghost p = |e: EntryView| recent(e, now_hour as nat, max_age_hours as nat);
    let mut kept: Vec<MaskEntry> = Vec::new();
    proof {
        reveal(Seq::filter);
        assert(entries_view(kept@) =~= v.take(0).filter(p));
    }
    for e in it: masks
        invariant
            it.seq() == all,
            v == entries_view(all),
            p == (|e: EntryView| recent(e, now_hour as nat, max_age_hours as nat)),
            entries_view(kept@) == v.take(it.index() as int).filter(p),
    {
        let ghost n = it.index() as int;
        let ghost pre = entries_view(kept@);
        let age: u64 = if now_hour > e.bucket.last_updated_hour {
            now_hour - e.bucket.last_updated_hour
        } else {
            0
        };
        proof {
            reveal(Seq::filter);
            assert(v.take(n + 1).drop_last() =~= v.take(n));
            assert(v.take(n + 1).last() == e@);
        }
        if age <= max_age_hours {
            kept.push(e);
            assert(entries_view(kept@) =~= pre.push(v[n]));
        }
    }
    assert(v.take(v.len() as int) =~= v);
    kept
}

} // verus!
