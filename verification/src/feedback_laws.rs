//! What holds of the feedback table whatever is reported to it.

use crate::feedback_map::{
    bucket_at, bucket_in, bucket_rank, bucket_sum, buckets_before, cast, cast_all, counted,
    countries_voted, country_pos, distinct_masks, evicted, evicted_from, fresh_bucket, hour_at,
    in_sample, is_bucket, is_oldest, is_victim, less_one, mask_pos, masks_of, masks_voted,
    oldest_is_unique, recent, recent_masks, room_made, swept, victim_is_unique, voted, well_formed,
    without_bucket, without_oldest, BucketView, CountryView, EntryView, MapView, VoteView,
    EVICTION_SAMPLE_SIZE, MAX_BUCKETS, MAX_BUCKETS_PER_COUNTRY,
};
use crate::hll::{blank, observe};
use vstd::prelude::*;

verus! {

/// The table keeps its count and both of its caps.
pub open spec fn within_caps(m: MapView) -> bool {
    &&& counted(m)
    &&& m.total <= MAX_BUCKETS
    &&& forall|i: int|
        0 <= i < m.countries.len() ==> (#[trigger] m.countries[i]).masks.len()
            <= MAX_BUCKETS_PER_COUNTRY
}

/// What a position in a list of entries says.
pub proof fn lemma_mask_pos(masks: Seq<EntryView>, id: Seq<char>, from: int)
    requires
        0 <= from <= masks.len(),
    ensures
        from <= mask_pos(masks, id, from) <= masks.len(),
        mask_pos(masks, id, from) < masks.len() ==> masks[mask_pos(masks, id, from)].mask_id == id,
        forall|k: int|
            from <= k < mask_pos(masks, id, from) ==> (#[trigger] masks[k]).mask_id != id,
    decreases masks.len() - from,
{
    if from < masks.len() && masks[from].mask_id != id {
        lemma_mask_pos(masks, id, from + 1);
    }
}

/// What a position in a list of countries says.
pub proof fn lemma_country_pos(countries: Seq<CountryView>, code: Seq<u8>, from: int)
    requires
        0 <= from <= countries.len(),
    ensures
        from <= country_pos(countries, code, from) <= countries.len(),
        country_pos(countries, code, from) < countries.len()
            ==> countries[country_pos(countries, code, from)].code == code,
        forall|k: int|
            from <= k < country_pos(countries, code, from) ==> (#[trigger] countries[k]).code
                != code,
    decreases countries.len() - from,
{
    if from < countries.len() && countries[from].code != code {
        lemma_country_pos(countries, code, from + 1);
    }
}

/// An entry of a list without repeats is found where it stands.
pub proof fn lemma_found(masks: Seq<EntryView>, i: int)
    requires
        distinct_masks(masks),
        0 <= i < masks.len(),
    ensures
        mask_pos(masks, masks[i].mask_id, 0) == i,
        bucket_in(masks, masks[i].mask_id) == Some(masks[i].bucket),
{
    lemma_mask_pos(masks, masks[i].mask_id, 0);
    let p = mask_pos(masks, masks[i].mask_id, 0);
    if p < i {
        assert(masks[p].mask_id != masks[i].mask_id);
    }
}

/// A country of a well-formed table is found where it stands.
pub proof fn lemma_country_found(countries: Seq<CountryView>, i: int)
    requires
        well_formed(countries),
        0 <= i < countries.len(),
    ensures
        country_pos(countries, countries[i].code, 0) == i,
        masks_of(countries, countries[i].code) == countries[i].masks,
{
    lemma_country_pos(countries, countries[i].code, 0);
    let p = country_pos(countries, countries[i].code, 0);
    if p < i {
        assert(countries[p].code != countries[i].code);
    }
}

proof fn lemma_before_update(countries: Seq<CountryView>, ci: int, c: CountryView, n: int)
    requires
        0 <= ci < countries.len(),
        0 <= n <= countries.len(),
    ensures
        buckets_before(countries.update(ci, c), n) == buckets_before(countries, n) + (if ci < n {
            c.masks.len() - countries[ci].masks.len()
        } else {
            0
        }),
    decreases n,
{
    if n > 0 {
        lemma_before_update(countries, ci, c, n - 1);
    }
}

proof fn lemma_before_remove(countries: Seq<CountryView>, ci: int, n: int)
    requires
        0 <= ci < countries.len(),
        0 <= n < countries.len(),
    ensures
        buckets_before(countries.remove(ci), n) == (if ci < n {
            buckets_before(countries, n + 1) - countries[ci].masks.len()
        } else {
            buckets_before(countries, n) as int
        }),
    decreases n,
{
    if n > 0 {
        lemma_before_remove(countries, ci, n - 1);
        if ci == n - 1 {
            assert(buckets_before(countries, n) == buckets_before(countries, n - 1)
                + countries[n - 1].masks.len());
        }
        assert(countries.remove(ci)[n - 1] == if n - 1 < ci {
            countries[n - 1]
        } else {
            countries[n]
        });
        assert(buckets_before(countries, n + 1) == buckets_before(countries, n)
            + countries[n].masks.len());
    }
}

proof fn lemma_before_push(countries: Seq<CountryView>, c: CountryView, n: int)
    requires
        0 <= n <= countries.len(),
    ensures
        buckets_before(countries.push(c), n) == buckets_before(countries, n),
    decreases n,
{
    if n > 0 {
        lemma_before_push(countries, c, n - 1);
    }
}

proof fn lemma_at_rank(countries: Seq<CountryView>, n: int, k: int) -> (at: (int, int))
    requires
        0 <= n <= countries.len(),
        0 <= k < buckets_before(countries, n),
    ensures
        is_bucket(countries, at.0, at.1),
        bucket_rank(countries, at.0, at.1) == k,
    decreases n,
{
    if k >= buckets_before(countries, n - 1) {
        (n - 1, k - buckets_before(countries, n - 1))
    } else {
        lemma_at_rank(countries, n - 1, k)
    }
}

proof fn lemma_rank_unique(countries: Seq<CountryView>, ci: int, mi: int, cj: int, mj: int)
    requires
        is_bucket(countries, ci, mi),
        is_bucket(countries, cj, mj),
        bucket_rank(countries, ci, mi) == bucket_rank(countries, cj, mj),
    ensures
        ci == cj && mi == mj,
{
    if ci < cj {
        lemma_before_grows(countries, ci + 1, cj);
    } else if cj < ci {
        lemma_before_grows(countries, cj + 1, ci);
    }
}

proof fn lemma_before_grows(countries: Seq<CountryView>, i: int, j: int)
    requires
        0 <= i <= j,
    ensures
        buckets_before(countries, i) <= buckets_before(countries, j),
    decreases j - i,
{
    if i < j {
        lemma_before_grows(countries, i, j - 1);
    }
}

proof fn lemma_oldest_upto(countries: Seq<CountryView>, n: int) -> (at: (int, int))
    requires
        0 < n <= bucket_sum(countries),
    ensures
        is_bucket(countries, at.0, at.1),
        bucket_rank(countries, at.0, at.1) < n,
        forall|cj: int, mj: int| #[trigger]
            is_bucket(countries, cj, mj) && bucket_rank(countries, cj, mj) < n ==> {
                &&& hour_at(countries, at.0, at.1) <= hour_at(countries, cj, mj)
                &&& bucket_rank(countries, cj, mj) < bucket_rank(countries, at.0, at.1) ==> hour_at(
                    countries,
                    at.0,
                    at.1,
                ) < hour_at(countries, cj, mj)
            },
    decreases n,
{
    let last = lemma_at_rank(countries, countries.len() as int, n - 1);
    let best = if n == 1 {
        last
    } else {
        let prev = lemma_oldest_upto(countries, n - 1);
        if hour_at(countries, last.0, last.1) < hour_at(countries, prev.0, prev.1) {
            last
        } else {
            prev
        }
    };
    assert forall|cj: int, mj: int| #[trigger]
        is_bucket(countries, cj, mj) && bucket_rank(countries, cj, mj) == n - 1 implies cj == last.0
        && mj == last.1 by {
        lemma_rank_unique(countries, cj, mj, last.0, last.1);
    }
    assert forall|cj: int, mj: int| #[trigger]
        is_bucket(countries, cj, mj) && bucket_rank(countries, cj, mj) < n implies {
        &&& hour_at(countries, best.0, best.1) <= hour_at(countries, cj, mj)
        &&& bucket_rank(countries, cj, mj) < bucket_rank(countries, best.0, best.1) ==> hour_at(
            countries,
            best.0,
            best.1,
        ) < hour_at(countries, cj, mj)
    } by {
        lemma_before_grows(countries, 0, cj);
    }
    best
}

/// A table that holds anything has exactly one bucket to give up, and that is the one which an
/// eviction takes out.
pub proof fn full_table_has_a_victim(m: MapView) -> (v: (int, int))
    requires
        bucket_sum(m.countries) > 0,
    ensures
        is_victim(m.countries, v.0, v.1),
        forall|ci: int, mi: int| #[trigger] is_victim(m.countries, ci, mi) ==> (ci, mi) == v,
        evicted(m) == (MapView {
            countries: without_bucket(m.countries, v.0, v.1),
            total: less_one(m.total),
        }),
{
    let countries = m.countries;
    let n = if bucket_sum(countries) < EVICTION_SAMPLE_SIZE {
        bucket_sum(countries) as int
    } else {
        EVICTION_SAMPLE_SIZE as int
    };
    let at = lemma_oldest_upto(countries, n);
    assert forall|cj: int, mj: int| #[trigger] in_sample(countries, cj, mj) implies {
        &&& hour_at(countries, at.0, at.1) <= hour_at(countries, cj, mj)
        &&& bucket_rank(countries, cj, mj) < bucket_rank(countries, at.0, at.1) ==> hour_at(
            countries,
            at.0,
            at.1,
        ) < hour_at(countries, cj, mj)
    } by {
        lemma_before_grows(countries, cj + 1, countries.len() as int);
        assert(is_bucket(countries, cj, mj));
    }
    assert(is_victim(countries, at.0, at.1));
    let v = choose|w: (int, int)| is_victim(countries, w.0, w.1);
    assert forall|ci: int, mi: int| #[trigger] is_victim(countries, ci, mi) implies (ci, mi)
        == v by {
        victim_is_unique(countries, ci, mi, v.0, v.1);
    }
    v
}

proof fn lemma_oldest_exists(masks: Seq<EntryView>, n: int) -> (i: int)
    requires
        0 < n <= masks.len(),
    ensures
        0 <= i < n,
        forall|j: int|
            0 <= j < n ==> {
                &&& masks[i].bucket.hour <= (#[trigger] masks[j]).bucket.hour
                &&& j < i ==> masks[i].bucket.hour < masks[j].bucket.hour
            },
    decreases n,
{
    if n == 1 {
        0
    } else {
        let p = lemma_oldest_exists(masks, n - 1);
        if masks[n - 1].bucket.hour < masks[p].bucket.hour {
            n - 1
        } else {
            p
        }
    }
}

/// A country that has any bucket has exactly one that is its oldest, and that is the one which
/// it gives up.
pub proof fn country_has_an_oldest(masks: Seq<EntryView>) -> (i: int)
    requires
        masks.len() > 0,
    ensures
        is_oldest(masks, i),
        forall|j: int| #[trigger] is_oldest(masks, j) ==> j == i,
        without_oldest(masks) == masks.remove(i),
{
    let k = lemma_oldest_exists(masks, masks.len() as int);
    assert(is_oldest(masks, k));
    let i = choose|i: int| is_oldest(masks, i);
    assert forall|j: int| #[trigger] is_oldest(masks, j) implies j == i by {
        oldest_is_unique(masks, j, i);
    }
    i
}

proof fn lemma_remove_distinct(masks: Seq<EntryView>, i: int)
    requires
        distinct_masks(masks),
        0 <= i < masks.len(),
    ensures
        distinct_masks(masks.remove(i)),
        forall|x: Seq<char>|
            (#[trigger] bucket_in(masks.remove(i), x)) is Some ==> bucket_in(masks, x)
                == bucket_in(masks.remove(i), x),
{
    let left = masks.remove(i);
    assert forall|a: int, b: int| 0 <= a < b < left.len() implies #[trigger] left[a].mask_id
        != #[trigger] left[b].mask_id by {
        let a0 = if a < i {
            a
        } else {
            a + 1
        };
        let b0 = if b < i {
            b
        } else {
            b + 1
        };
        assert(left[a] == masks[a0] && left[b] == masks[b0]);
    }
    assert forall|x: Seq<char>| (#[trigger] bucket_in(left, x)) is Some implies bucket_in(
        masks,
        x,
    ) == bucket_in(left, x) by {
        lemma_mask_pos(left, x, 0);
        let p = mask_pos(left, x, 0);
        let p0 = if p < i {
            p
        } else {
            p + 1
        };
        assert(left[p] == masks[p0]);
        lemma_found(masks, p0);
    }
}

/// Whatever bucket one table has, the other has too.
pub open spec fn buckets_within(a: Seq<CountryView>, b: Seq<CountryView>) -> bool {
    forall|d: Seq<u8>, x: Seq<char>|
        (#[trigger] bucket_at(a, d, x)) is Some ==> bucket_at(b, d, x) == bucket_at(a, d, x)
}

proof fn lemma_update_masks(countries: Seq<CountryView>, ci: int, masks: Seq<EntryView>, d: Seq<u8>)
    requires
        well_formed(countries),
        0 <= ci < countries.len(),
    ensures
        ({
            let after = countries.update(ci, CountryView { code: countries[ci].code, masks });
            masks_of(after, d) == (if d == countries[ci].code {
                masks
            } else {
                masks_of(countries, d)
            })
        }),
{
    let after = countries.update(ci, CountryView { code: countries[ci].code, masks });
    lemma_country_pos(after, d, 0);
    lemma_country_pos(countries, d, 0);
    let p = country_pos(after, d, 0);
    let q = country_pos(countries, d, 0);
    if p < q {
        assert(after[p].code == countries[p].code);
    } else if q < p {
        assert(after[q].code == countries[q].code);
    }
    if d == countries[ci].code {
        lemma_country_found(countries, ci);
    }
}

proof fn lemma_remove_country(countries: Seq<CountryView>, ci: int, d: Seq<u8>)
    requires
        well_formed(countries),
        0 <= ci < countries.len(),
    ensures
        masks_of(countries.remove(ci), d) == (if d == countries[ci].code {
            seq![]
        } else {
            masks_of(countries, d)
        }),
{
    let after = countries.remove(ci);
    lemma_country_pos(after, d, 0);
    lemma_country_pos(countries, d, 0);
    let p = country_pos(after, d, 0);
    let q = country_pos(countries, d, 0);
    if p < after.len() {
        let p0 = if p < ci {
            p
        } else {
            p + 1
        };
        assert(after[p] == countries[p0]);
        lemma_country_found(countries, p0);
    } else if q < countries.len() && d != countries[ci].code {
        let q0 = if q < ci {
            q
        } else {
            q - 1
        };
        assert(after[q0] == countries[q]);
        assert(false);
    }
}

proof fn lemma_without_bucket(countries: Seq<CountryView>, ci: int, mi: int)
    requires
        well_formed(countries),
        is_bucket(countries, ci, mi),
    ensures
        well_formed(without_bucket(countries, ci, mi)),
        bucket_sum(without_bucket(countries, ci, mi)) == bucket_sum(countries) - 1,
        buckets_within(without_bucket(countries, ci, mi), countries),
        forall|i: int|
            0 <= i < without_bucket(countries, ci, mi).len() ==> exists|j: int|
                0 <= j < countries.len() && (#[trigger] without_bucket(
                    countries,
                    ci,
                    mi,
                )[i]).masks.len() <= (#[trigger] countries[j]).masks.len(),
{
    let after = without_bucket(countries, ci, mi);
    let left = countries[ci].masks.remove(mi);
    lemma_remove_distinct(countries[ci].masks, mi);
    if left.len() == 0 {
        assert(countries[ci].masks.len() == 1);
        lemma_before_remove(countries, ci, countries.len() - 1);
        assert forall|i: int, j: int| 0 <= i < j < after.len() implies #[trigger] after[i].code
            != #[trigger] after[j].code by {
            let i0 = if i < ci {
                i
            } else {
                i + 1
            };
            let j0 = if j < ci {
                j
            } else {
                j + 1
            };
            assert(after[i] == countries[i0] && after[j] == countries[j0]);
        }
        assert forall|i: int| 0 <= i < after.len() implies exists|j: int|
            0 <= j < countries.len() && (#[trigger] after[i]).masks.len() <= (
            #[trigger] countries[j]).masks.len() by {
            let i0 = if i < ci {
                i
            } else {
                i + 1
            };
            assert(after[i] == countries[i0]);
        }
        assert forall|d: Seq<u8>, x: Seq<char>|
            (#[trigger] bucket_at(after, d, x)) is Some implies bucket_at(countries, d, x) == bucket_at(after, d, x) by {
            lemma_remove_country(countries, ci, d);
        }
    } else {
        lemma_before_update(
            countries,
            ci,
            CountryView { code: countries[ci].code, masks: left },
            countries.len() as int,
        );
        assert forall|i: int| 0 <= i < after.len() implies exists|j: int|
            0 <= j < countries.len() && (#[trigger] after[i]).masks.len() <= (
            #[trigger] countries[j]).masks.len() by {
            assert(after[i].masks.len() <= countries[i].masks.len());
        }
        assert forall|d: Seq<u8>, x: Seq<char>|
            (#[trigger] bucket_at(after, d, x)) is Some implies bucket_at(countries, d, x) == bucket_at(after, d, x) by {
            lemma_update_masks(countries, ci, left, d);
            if d == countries[ci].code {
                lemma_country_found(countries, ci);
                assert(bucket_in(left, x) is Some);
            }
        }
    }
}

proof fn lemma_evicted(m: MapView)
    requires
        well_formed(m.countries),
        bucket_sum(m.countries) > 0,
    ensures
        well_formed(evicted(m).countries),
        bucket_sum(evicted(m).countries) == bucket_sum(m.countries) - 1,
        buckets_within(evicted(m).countries, m.countries),
        forall|i: int|
            0 <= i < evicted(m).countries.len() ==> exists|j: int|
                0 <= j < m.countries.len() && (#[trigger] evicted(m).countries[i]).masks.len() <= (
                #[trigger] m.countries[j]).masks.len(),
{
    let v = full_table_has_a_victim(m);
    lemma_without_bucket(m.countries, v.0, v.1);
}

proof fn lemma_evicted_from(m: MapView, code: Seq<u8>)
    requires
        well_formed(m.countries),
        masks_of(m.countries, code).len() > 1,
    ensures
        well_formed(evicted_from(m, code).countries),
        bucket_sum(evicted_from(m, code).countries) == bucket_sum(m.countries) - 1,
        buckets_within(evicted_from(m, code).countries, m.countries),
        masks_of(evicted_from(m, code).countries, code).len() == masks_of(m.countries, code).len()
            - 1,
        evicted_from(m, code).countries.len() == m.countries.len(),
        forall|i: int|
            0 <= i < m.countries.len() ==> (#[trigger] evicted_from(
                m,
                code,
            ).countries[i]).masks.len() <= (#[trigger] m.countries[i]).masks.len(),
        forall|d: Seq<u8>|
            d != code ==> #[trigger] masks_of(evicted_from(m, code).countries, d) == masks_of(
                m.countries,
                d,
            ),
{
    let ci = country_pos(m.countries, code, 0);
    lemma_country_pos(m.countries, code, 0);
    let masks = m.countries[ci].masks;
    let i = country_has_an_oldest(masks);
    lemma_remove_distinct(masks, i);
    let after = evicted_from(m, code).countries;
    lemma_before_update(
        m.countries,
        ci,
        CountryView { code: m.countries[ci].code, masks: without_oldest(masks) },
        m.countries.len() as int,
    );
    assert forall|d: Seq<u8>, x: Seq<char>|
            (#[trigger] bucket_at(after, d, x)) is Some implies bucket_at(m.countries, d, x) == bucket_at(after, d, x) by {
        lemma_update_masks(m.countries, ci, without_oldest(masks), d);
        if d == code {
            assert(bucket_in(masks.remove(i), x) is Some);
        }
    }
    assert forall|d: Seq<u8>| d != code implies #[trigger] masks_of(after, d) == masks_of(
        m.countries,
        d,
    ) by {
        lemma_update_masks(m.countries, ci, without_oldest(masks), d);
    }
    lemma_update_masks(m.countries, ci, without_oldest(masks), code);
}

proof fn lemma_masks_voted(masks: Seq<EntryView>, vote: VoteView, token: Seq<u8>, hour: nat)
    requires
        distinct_masks(masks),
    ensures
        distinct_masks(masks_voted(masks, vote, token, hour)),
        masks_voted(masks, vote, token, hour).len() == masks.len() + (if bucket_in(
            masks,
            vote.mask_id,
        ) is Some {
            0int
        } else {
            1int
        }),
        bucket_in(masks_voted(masks, vote, token, hour), vote.mask_id) == Some(
            voted(
                match bucket_in(masks, vote.mask_id) {
                    Some(b) => b,
                    None => fresh_bucket(),
                },
                vote,
                token,
                hour,
            ),
        ),
        forall|x: Seq<char>|
            x != vote.mask_id ==> #[trigger] bucket_in(masks_voted(masks, vote, token, hour), x)
                == bucket_in(masks, x),
{
    let after = masks_voted(masks, vote, token, hour);
    let mi = mask_pos(masks, vote.mask_id, 0);
    lemma_mask_pos(masks, vote.mask_id, 0);
    lemma_found(after, mi);
    assert forall|x: Seq<char>| x != vote.mask_id implies #[trigger] bucket_in(after, x)
        == bucket_in(masks, x) by {
        lemma_mask_pos(after, x, 0);
        lemma_mask_pos(masks, x, 0);
        let p = mask_pos(after, x, 0);
        let q = mask_pos(masks, x, 0);
        if p < q {
            assert(after[p].mask_id == x);
            if p < masks.len() {
                assert(masks[p].mask_id == x);
            }
        } else if q < p {
            if q < masks.len() {
                assert(after[q].mask_id == x);
            } else if p < after.len() {
                assert(after[p].mask_id == vote.mask_id);
            }
        }
    }
}

proof fn lemma_countries_voted(
    countries: Seq<CountryView>,
    code: Seq<u8>,
    vote: VoteView,
    token: Seq<u8>,
    hour: nat,
)
    requires
        well_formed(countries),
    ensures
        ({
            let after = countries_voted(countries, code, vote, token, hour);
            &&& well_formed(after)
            &&& masks_of(after, code) == masks_voted(masks_of(countries, code), vote, token, hour)
            &&& forall|d: Seq<u8>|
                d != code ==> #[trigger] masks_of(after, d) == masks_of(countries, d)
            &&& bucket_sum(after) == bucket_sum(countries) + (if bucket_at(
                countries,
                code,
                vote.mask_id,
            ) is Some {
                0int
            } else {
                1int
            })
        }),
{
    let after = countries_voted(countries, code, vote, token, hour);
    let ci = country_pos(countries, code, 0);
    lemma_country_pos(countries, code, 0);
    if ci < countries.len() {
        let masks = masks_voted(countries[ci].masks, vote, token, hour);
        lemma_masks_voted(countries[ci].masks, vote, token, hour);
        lemma_before_update(
            countries,
            ci,
            CountryView { code: countries[ci].code, masks },
            countries.len() as int,
        );
        assert forall|d: Seq<u8>| d != code implies #[trigger] masks_of(after, d) == masks_of(
            countries,
            d,
        ) by {
            lemma_update_masks(countries, ci, masks, d);
        }
        lemma_update_masks(countries, ci, masks, code);
    } else {
        let masks = masks_voted(seq![], vote, token, hour);
        lemma_masks_voted(seq![], vote, token, hour);
        lemma_before_push(countries, CountryView { code, masks }, countries.len() as int);
        assert forall|d: Seq<u8>| #[trigger] masks_of(after, d) == (if d == code {
            masks
        } else {
            masks_of(countries, d)
        }) by {
            lemma_country_pos(after, d, 0);
            lemma_country_pos(countries, d, 0);
            let p = country_pos(after, d, 0);
            let q = country_pos(countries, d, 0);
            if p < q {
                assert(after[p].code == d);
                assert(countries[p].code == d);
            } else if q < p {
                assert(after[q].code == (if q < countries.len() {
                    countries[q].code
                } else {
                    code
                }));
            }
        }
    }
}

proof fn lemma_room_made(m: MapView, code: Seq<u8>)
    requires
        well_formed(m.countries),
        m.total >= MAX_BUCKETS ==> bucket_sum(m.countries) > 0,
    ensures
        well_formed(room_made(m, code).countries),
        buckets_within(room_made(m, code).countries, m.countries),
        counted(m) ==> counted(room_made(m, code)),
        within_caps(m) ==> within_caps(room_made(m, code)) && room_made(m, code).total < MAX_BUCKETS
            && masks_of(room_made(m, code).countries, code).len() < MAX_BUCKETS_PER_COUNTRY,
        m.total < MAX_BUCKETS ==> forall|d: Seq<u8>|
            d != code ==> #[trigger] masks_of(room_made(m, code).countries, d) == masks_of(
                m.countries,
                d,
            ),
{
    let m1 = if m.total >= MAX_BUCKETS {
        evicted(m)
    } else {
        m
    };
    if m.total >= MAX_BUCKETS {
        lemma_evicted(m);
    }
    lemma_country_pos(m1.countries, code, 0);
    if masks_of(m1.countries, code).len() >= MAX_BUCKETS_PER_COUNTRY {
        lemma_evicted_from(m1, code);
    }
    if within_caps(m) {
        assert forall|i: int| 0 <= i < m1.countries.len() implies (#[trigger] m1.countries[i]).masks.len()
            <= MAX_BUCKETS_PER_COUNTRY by {
            if m.total >= MAX_BUCKETS {
                let j = choose|j: int|
                    0 <= j < m.countries.len() && (#[trigger] evicted(m).countries[i]).masks.len()
                        <= (#[trigger] m.countries[j]).masks.len();
                assert(m.countries[j].masks.len() <= MAX_BUCKETS_PER_COUNTRY);
            }
        }
        let m2 = room_made(m, code);
        assert forall|i: int| 0 <= i < m2.countries.len() implies (#[trigger] m2.countries[i]).masks.len()
            <= MAX_BUCKETS_PER_COUNTRY by {
            assert(m1.countries[i].masks.len() <= MAX_BUCKETS_PER_COUNTRY);
        }
    }
}

/// A vote never lists a country or a mask twice, nor leaves a country empty.
pub proof fn vote_keeps_table_well_formed(
    m: MapView,
    code: Seq<u8>,
    vote: VoteView,
    token: Seq<u8>,
    hour: nat,
)
    requires
        well_formed(m.countries),
    ensures
        well_formed(cast(m, code, vote, token, hour).countries),
{
    if bucket_at(m.countries, code, vote.mask_id) is Some {
        lemma_countries_voted(m.countries, code, vote, token, hour);
    } else if m.total >= MAX_BUCKETS && bucket_sum(m.countries) == 0 {
    } else {
        lemma_room_made(m, code);
        lemma_countries_voted(room_made(m, code).countries, code, vote, token, hour);
    }
}

proof fn lemma_unknown_stays_unknown(a: Seq<CountryView>, b: Seq<CountryView>, code: Seq<u8>, id: Seq<char>)
    requires
        buckets_within(a, b),
        bucket_at(b, code, id) is None,
    ensures
        bucket_at(a, code, id) is None,
{
    if bucket_at(a, code, id) is Some {
        assert(bucket_at(b, code, id) == bucket_at(a, code, id));
    }
}

/// The recorded number of buckets stays their actual number.
pub proof fn vote_keeps_count_exact(
    m: MapView,
    code: Seq<u8>,
    vote: VoteView,
    token: Seq<u8>,
    hour: nat,
)
    requires
        well_formed(m.countries),
        counted(m),
    ensures
        counted(cast(m, code, vote, token, hour)),
{
    if bucket_at(m.countries, code, vote.mask_id) is Some {
        lemma_countries_voted(m.countries, code, vote, token, hour);
    } else if m.total >= MAX_BUCKETS && bucket_sum(m.countries) == 0 {
    } else {
        let m2 = room_made(m, code);
        lemma_room_made(m, code);
        lemma_unknown_stays_unknown(m2.countries, m.countries, code, vote.mask_id);
        lemma_countries_voted(m2.countries, code, vote, token, hour);
    }
}

/// However many masks are reported, neither the overall cap nor a country's cap is passed.
pub proof fn vote_keeps_caps(
    m: MapView,
    code: Seq<u8>,
    vote: VoteView,
    token: Seq<u8>,
    hour: nat,
)
    requires
        well_formed(m.countries),
        within_caps(m),
    ensures
        within_caps(cast(m, code, vote, token, hour)),
{
    let after = cast(m, code, vote, token, hour);
    vote_keeps_count_exact(m, code, vote, token, hour);
    let known = bucket_at(m.countries, code, vote.mask_id) is Some;
    if !known && m.total >= MAX_BUCKETS && bucket_sum(m.countries) == 0 {
    } else {
        let m2 = if known {
            m
        } else {
            room_made(m, code)
        };
        if !known {
            lemma_room_made(m, code);
            lemma_unknown_stays_unknown(m2.countries, m.countries, code, vote.mask_id);
        }
        lemma_countries_voted(m2.countries, code, vote, token, hour);
        let ci = country_pos(m2.countries, code, 0);
        lemma_country_pos(m2.countries, code, 0);
        if ci < m2.countries.len() {
            lemma_masks_voted(m2.countries[ci].masks, vote, token, hour);
        } else {
            lemma_masks_voted(seq![], vote, token, hour);
        }
        assert forall|i: int| 0 <= i < after.countries.len() implies (
        #[trigger] after.countries[i]).masks.len() <= MAX_BUCKETS_PER_COUNTRY by {
            if i < m2.countries.len() {
                assert(m2.countries[i].masks.len() <= MAX_BUCKETS_PER_COUNTRY);
            }
        }
    }
}

/// Below the overall cap, reports from one country leave every other country untouched.
pub proof fn vote_leaves_other_countries_alone(
    m: MapView,
    code: Seq<u8>,
    vote: VoteView,
    token: Seq<u8>,
    hour: nat,
    other: Seq<u8>,
)
    requires
        well_formed(m.countries),
        m.total < MAX_BUCKETS,
        other != code,
    ensures
        masks_of(cast(m, code, vote, token, hour).countries, other) == masks_of(
            m.countries,
            other,
        ),
{
    if bucket_at(m.countries, code, vote.mask_id) is Some {
        lemma_countries_voted(m.countries, code, vote, token, hour);
    } else {
        lemma_room_made(m, code);
        lemma_countries_voted(room_made(m, code).countries, code, vote, token, hour);
    }
}

/// A vote is counted in the bucket it names, which is opened where it does not exist yet.
/// The one exception is a table that is recorded as full and holds nothing.
pub proof fn vote_is_counted(
    m: MapView,
    code: Seq<u8>,
    vote: VoteView,
    token: Seq<u8>,
    hour: nat,
)
    requires
        well_formed(m.countries),
        m.total < MAX_BUCKETS || bucket_sum(m.countries) > 0,
    ensures
        bucket_at(cast(m, code, vote, token, hour).countries, code, vote.mask_id) == Some(
            voted(
                match bucket_at(m.countries, code, vote.mask_id) {
                    Some(b) => b,
                    None => fresh_bucket(),
                },
                vote,
                token,
                hour,
            ),
        ),
{
    let known = bucket_at(m.countries, code, vote.mask_id) is Some;
    let m2 = if known {
        m
    } else {
        room_made(m, code)
    };
    if !known {
        lemma_room_made(m, code);
        lemma_unknown_stays_unknown(m2.countries, m.countries, code, vote.mask_id);
    }
    lemma_countries_voted(m2.countries, code, vote, token, hour);
    lemma_country_pos(m2.countries, code, 0);
    lemma_masks_voted(masks_of(m2.countries, code), vote, token, hour);
}

/// A vote changes no bucket but the one it names; others stay as they are or are given up.
pub proof fn vote_changes_only_its_bucket(
    m: MapView,
    code: Seq<u8>,
    vote: VoteView,
    token: Seq<u8>,
    hour: nat,
    d: Seq<u8>,
    x: Seq<char>,
)
    requires
        well_formed(m.countries),
        d != code || x != vote.mask_id,
        bucket_at(cast(m, code, vote, token, hour).countries, d, x) is Some,
    ensures
        bucket_at(m.countries, d, x) == bucket_at(
            cast(m, code, vote, token, hour).countries,
            d,
            x,
        ),
{
    let known = bucket_at(m.countries, code, vote.mask_id) is Some;
    if !known && m.total >= MAX_BUCKETS && bucket_sum(m.countries) == 0 {
    } else {
        let m2 = if known {
            m
        } else {
            room_made(m, code)
        };
        if !known {
            lemma_room_made(m, code);
        }
        lemma_countries_voted(m2.countries, code, vote, token, hour);
        lemma_country_pos(m2.countries, code, 0);
        lemma_masks_voted(masks_of(m2.countries, code), vote, token, hour);
        assert(bucket_at(m2.countries, d, x) is Some);
    }
}

/// No vote is for a mask that another vote of the list is for.
pub open spec fn distinct_votes(votes: Seq<VoteView>) -> bool {
    forall|i: int, j: int|
        0 <= i < j < votes.len() ==> #[trigger] votes[i].mask_id != #[trigger] votes[j].mask_id
}

/// A whole report keeps the table well formed, and its count and caps with it.
pub proof fn report_keeps_table_in_order(
    m: MapView,
    code: Seq<u8>,
    votes: Seq<VoteView>,
    token: Seq<u8>,
    hour: nat,
)
    requires
        well_formed(m.countries),
    ensures
        well_formed(cast_all(m, code, votes, token, hour).countries),
        counted(m) ==> counted(cast_all(m, code, votes, token, hour)),
        within_caps(m) ==> within_caps(cast_all(m, code, votes, token, hour)),
    decreases votes.len(),
{
    if votes.len() > 0 {
        let rest = votes.drop_last();
        report_keeps_table_in_order(m, code, rest, token, hour);
        let before = cast_all(m, code, rest, token, hour);
        vote_keeps_table_well_formed(before, code, votes.last(), token, hour);
        if counted(m) {
            vote_keeps_count_exact(before, code, votes.last(), token, hour);
        }
        if within_caps(m) {
            vote_keeps_caps(before, code, votes.last(), token, hour);
        }
    }
}

proof fn lemma_report_bucket(
    m: MapView,
    code: Seq<u8>,
    votes: Seq<VoteView>,
    token: Seq<u8>,
    hour: nat,
    d: Seq<u8>,
    x: Seq<char>,
)
    requires
        well_formed(m.countries),
        distinct_votes(votes),
        bucket_at(cast_all(m, code, votes, token, hour).countries, d, x) is Some,
    ensures
        ({
            let b = bucket_at(cast_all(m, code, votes, token, hour).countries, d, x)->0;
            let was = match bucket_at(m.countries, d, x) {
                Some(k) => k,
                None => fresh_bucket(),
            };
            &&& b.success <= was.success + 1
            &&& b.fail <= was.fail + 1
            &&& (forall|i: int|
                0 <= i < votes.len() ==> d != code || (#[trigger] votes[i]).mask_id != x)
                ==> bucket_at(m.countries, d, x) == Some(b)
        }),
    decreases votes.len(),
{
    if votes.len() > 0 {
        let rest = votes.drop_last();
        let last = votes.last();
        let before = cast_all(m, code, rest, token, hour);
        report_keeps_table_in_order(m, code, rest, token, hour);
        assert(distinct_votes(rest)) by {
            assert forall|i: int, j: int| 0 <= i < j < rest.len() implies #[trigger] rest[i].mask_id
                != #[trigger] rest[j].mask_id by {
                assert(rest[i] == votes[i] && rest[j] == votes[j]);
            }
        }
        if d == code && x == last.mask_id {
            assert forall|i: int| 0 <= i < rest.len() implies (#[trigger] rest[i]).mask_id != x by {
                assert(rest[i] == votes[i]);
                assert(votes[i].mask_id != votes[votes.len() - 1].mask_id);
            }
            if before.total < MAX_BUCKETS || bucket_sum(before.countries) > 0 {
                vote_is_counted(before, code, last, token, hour);
            }
            if bucket_at(before.countries, d, x) is Some {
                lemma_report_bucket(m, code, rest, token, hour, d, x);
            }
            assert(votes[votes.len() - 1].mask_id == x);
        } else {
            vote_changes_only_its_bucket(before, code, last, token, hour, d, x);
            lemma_report_bucket(m, code, rest, token, hour, d, x);
            if forall|i: int|
                0 <= i < votes.len() ==> d != code || (#[trigger] votes[i]).mask_id != x {
                assert forall|i: int| 0 <= i < rest.len() implies d != code || (
                #[trigger] rest[i]).mask_id != x by {
                    assert(rest[i] == votes[i]);
                }
            }
        }
    }
}

/// Whatever magnitudes a report claims, it moves each count of each bucket by one at most.
pub proof fn report_moves_counts_by_one_at_most(
    m: MapView,
    code: Seq<u8>,
    votes: Seq<VoteView>,
    token: Seq<u8>,
    hour: nat,
    d: Seq<u8>,
    x: Seq<char>,
    b: BucketView,
)
    requires
        well_formed(m.countries),
        distinct_votes(votes),
        bucket_at(cast_all(m, code, votes, token, hour).countries, d, x) == Some(b),
    ensures
        ({
            let was = match bucket_at(m.countries, d, x) {
                Some(k) => k,
                None => fresh_bucket(),
            };
            b.success <= was.success + 1 && b.fail <= was.fail + 1
        }),
{
    lemma_report_bucket(m, code, votes, token, hour, d, x);
}

proof fn lemma_recent_masks(masks: Seq<EntryView>, now_hour: nat, max_age: nat)
    requires
        distinct_masks(masks),
    ensures
        distinct_masks(recent_masks(masks, now_hour, max_age)),
        forall|e: EntryView| #[trigger]
            recent_masks(masks, now_hour, max_age).contains(e) <==> masks.contains(e)
                && now_hour <= e.bucket.hour + max_age,
    decreases masks.len(),
{
    reveal(Seq::filter);
    let p = |e: EntryView| crate::feedback_map::recent(e, now_hour, max_age);
    if masks.len() > 0 {
        let rest = masks.drop_last();
        assert(distinct_masks(rest)) by {
            assert forall|i: int, j: int| 0 <= i < j < rest.len() implies #[trigger] rest[i].mask_id
                != #[trigger] rest[j].mask_id by {
                assert(rest[i] == masks[i] && rest[j] == masks[j]);
            }
        }
        lemma_recent_masks(rest, now_hour, max_age);
        let kept = recent_masks(rest, now_hour, max_age);
        let after = recent_masks(masks, now_hour, max_age);
        let last = masks.last();
        assert forall|e: EntryView| #[trigger] after.contains(e) <==> masks.contains(e)
            && now_hour <= e.bucket.hour + max_age by {
            if masks.contains(e) {
                let i = choose|i: int| 0 <= i < masks.len() && masks[i] == e;
                if i < rest.len() {
                    assert(rest[i] == e);
                    assert(rest.contains(e));
                }
            }
            if rest.contains(e) {
                let i = choose|i: int| 0 <= i < rest.len() && rest[i] == e;
                assert(masks[i] == e);
            }
            assert(masks.contains(last)) by {
                assert(masks[masks.len() - 1] == last);
            }
            if p(last) {
                assert(after == kept.push(last));
                if kept.contains(e) {
                    let i = choose|i: int| 0 <= i < kept.len() && kept[i] == e;
                    assert(after[i] == e);
                }
                if e == last {
                    assert(after[kept.len() as int] == e);
                }
                if after.contains(e) {
                    let i = choose|i: int| 0 <= i < after.len() && after[i] == e;
                    if i < kept.len() {
                        assert(kept[i] == e);
                        assert(kept.contains(e));
                    }
                }
            }
        }
        if p(last) {
            assert forall|i: int, j: int| 0 <= i < j < after.len() implies #[trigger] after[i].mask_id
                != #[trigger] after[j].mask_id by {
                if j == kept.len() {
                    assert(kept.contains(kept[i]));
                    assert(rest.contains(kept[i]));
                    let k = choose|k: int| 0 <= k < rest.len() && rest[k] == kept[i];
                    assert(masks[k].mask_id != masks[masks.len() - 1].mask_id);
                }
            }
        }
    }
}

proof fn lemma_swept(countries: Seq<CountryView>, n: int, now_hour: nat, max_age: nat)
    requires
        well_formed(countries),
        0 <= n <= countries.len(),
    ensures
        well_formed(swept(countries, n, now_hour, max_age)),
        forall|i: int|
            0 <= i < swept(countries, n, now_hour, max_age).len() ==> exists|j: int|
                0 <= j < n && (#[trigger] swept(countries, n, now_hour, max_age)[i]) == (
                CountryView {
                    code: (#[trigger] countries[j]).code,
                    masks: recent_masks(countries[j].masks, now_hour, max_age),
                }),
    decreases n,
{
    if n > 0 {
        lemma_swept(countries, n - 1, now_hour, max_age);
        let before = swept(countries, n - 1, now_hour, max_age);
        let after = swept(countries, n, now_hour, max_age);
        lemma_recent_masks(countries[n - 1].masks, now_hour, max_age);
        assert forall|i: int| 0 <= i < after.len() implies exists|j: int|
            0 <= j < n && (#[trigger] after[i]) == (CountryView {
                code: (#[trigger] countries[j]).code,
                masks: recent_masks(countries[j].masks, now_hour, max_age),
            }) by {
            if i < before.len() {
                assert(after[i] == before[i]);
                let j = choose|j: int|
                    0 <= j < n - 1 && before[i] == (CountryView {
                        code: (#[trigger] countries[j]).code,
                        masks: recent_masks(countries[j].masks, now_hour, max_age),
                    });
                assert(after[i].code == countries[j].code);
            } else {
                assert(after[i].code == countries[n - 1].code);
            }
        }
        assert forall|i: int, j: int| 0 <= i < j < after.len() implies #[trigger] after[i].code
            != #[trigger] after[j].code by {
            if j == before.len() {
                assert(after[i] == before[i]);
                let k = choose|k: int|
                    0 <= k < n - 1 && before[i] == (CountryView {
                        code: (#[trigger] countries[k]).code,
                        masks: recent_masks(countries[k].masks, now_hour, max_age),
                    });
                assert(countries[k].code != countries[n - 1].code);
            }
        }
    }
}

/// A sweep keeps the table well formed, its count exact and its caps.
pub proof fn sweep_keeps_table_in_order(m: MapView, after: MapView, now_hour: nat, max_age: nat)
    requires
        well_formed(m.countries),
        after.countries == swept(m.countries, m.countries.len() as int, now_hour, max_age),
        after.total == m.total - (bucket_sum(m.countries) - bucket_sum(after.countries)),
    ensures
        well_formed(after.countries),
        counted(m) ==> counted(after),
        within_caps(m) && after.total <= m.total ==> within_caps(after),
{
    lemma_swept(m.countries, m.countries.len() as int, now_hour, max_age);
    if within_caps(m) && after.total <= m.total {
        assert forall|i: int| 0 <= i < after.countries.len() implies (
        #[trigger] after.countries[i]).masks.len() <= MAX_BUCKETS_PER_COUNTRY by {
            let j = choose|j: int|
                0 <= j < m.countries.len() && after.countries[i] == (CountryView {
                    code: (#[trigger] m.countries[j]).code,
                    masks: recent_masks(m.countries[j].masks, now_hour, max_age),
                });
            assert(m.countries[j].masks.len() <= MAX_BUCKETS_PER_COUNTRY);
            m.countries[j].masks.lemma_filter_len(
                |e: EntryView| crate::feedback_map::recent(e, now_hour, max_age),
            );
        }
    }
}

/// After a sweep nothing older than the allowed age is left in any country.
pub proof fn sweep_leaves_only_recent_buckets(
    countries: Seq<CountryView>,
    now_hour: nat,
    max_age: nat,
    ci: int,
    mi: int,
)
    requires
        well_formed(countries),
        is_bucket(swept(countries, countries.len() as int, now_hour, max_age), ci, mi),
    ensures
        now_hour <= hour_at(swept(countries, countries.len() as int, now_hour, max_age), ci, mi)
            + max_age,
{
    let after = swept(countries, countries.len() as int, now_hour, max_age);
    lemma_swept(countries, countries.len() as int, now_hour, max_age);
    let j = choose|j: int|
        0 <= j < countries.len() && after[ci] == (CountryView {
            code: (#[trigger] countries[j]).code,
            masks: recent_masks(countries[j].masks, now_hour, max_age),
        });
    lemma_recent_masks(countries[j].masks, now_hour, max_age);
    assert(after[ci].masks.contains(after[ci].masks[mi]));
}

/// A vote adds one to what it says, and nothing to what it does not say, of its mask in its
/// country, which counts from nothing where it was not known; the reporter is observed there and
/// the hour noted.
pub proof fn vote_adds_what_it_says(
    m: MapView,
    code: Seq<u8>,
    vote: VoteView,
    token: Seq<u8>,
    hour: nat,
)
    requires
        well_formed(m.countries),
        m.total < 100_000 || bucket_sum(m.countries) > 0,
    ensures
        ({
            let was = bucket_at(m.countries, code, vote.mask_id);
            let got = bucket_at(cast(m, code, vote, token, hour).countries, code, vote.mask_id);
            let success = if was is Some {
                was->0.success
            } else {
                0
            };
            let fail = if was is Some {
                was->0.fail
            } else {
                0
            };
            let reporters = if was is Some {
                was->0.reporters
            } else {
                blank()
            };
            &&& got is Some
            &&& vote.success && success < u64::MAX ==> got->0.success == success + 1
            &&& !vote.success || success >= u64::MAX ==> got->0.success == success
            &&& vote.fail && fail < u64::MAX ==> got->0.fail == fail + 1
            &&& !vote.fail || fail >= u64::MAX ==> got->0.fail == fail
            &&& got->0.reporters == observe(reporters, token)
            &&& got->0.hour == hour
        }),
{
    vote_is_counted(m, code, vote, token, hour);
}

proof fn lemma_mask_pos_after_push(masks: Seq<EntryView>, e: EntryView, x: Seq<char>, from: int)
    requires
        0 <= from <= masks.len(),
        mask_pos(masks, x, from) < masks.len(),
    ensures
        mask_pos(masks.push(e), x, from) == mask_pos(masks, x, from),
    decreases masks.len() - from,
{
    if from < masks.len() && masks[from].mask_id != x {
        lemma_mask_pos_after_push(masks, e, x, from + 1);
    }
}

proof fn lemma_mask_pos_after_update(
    masks: Seq<EntryView>,
    i: int,
    e: EntryView,
    x: Seq<char>,
    from: int,
)
    requires
        0 <= from <= masks.len(),
        0 <= i < masks.len(),
        e.mask_id == masks[i].mask_id,
    ensures
        mask_pos(masks.update(i, e), x, from) == mask_pos(masks, x, from),
    decreases masks.len() - from,
{
    if from < masks.len() && masks[from].mask_id != x {
        lemma_mask_pos_after_update(masks, i, e, x, from + 1);
    }
}

/// While there is room in the table and in the country, a vote pushes nothing out: every other
/// bucket stays as it is.
pub proof fn vote_pushes_nothing_out_while_there_is_room(
    m: MapView,
    code: Seq<u8>,
    vote: VoteView,
    token: Seq<u8>,
    hour: nat,
    d: Seq<u8>,
    x: Seq<char>,
)
    requires
        well_formed(m.countries),
        m.total < 100_000,
        masks_of(m.countries, code).len() < 10_000,
        d != code || x != vote.mask_id,
    ensures
        bucket_at(cast(m, code, vote, token, hour).countries, d, x) == bucket_at(m.countries, d, x),
{
    let after = cast(m, code, vote, token, hour).countries;
    if d != code {
        vote_leaves_other_countries_alone(m, code, vote, token, hour, d);
    } else {
        let masks = masks_of(m.countries, code);
        lemma_country_pos(m.countries, code, 0);
        assert(after == countries_voted(m.countries, code, vote, token, hour));
        lemma_country_pos(after, code, 0);
        let ci = country_pos(m.countries, code, 0);
        assert(after[ci].code == code);
        assert(country_pos(after, code, 0) == ci) by {
            let cj = country_pos(after, code, 0);
            if cj < ci {
                assert(after[cj] == m.countries[cj]);
            }
        }
        assert(masks_of(after, code) == masks_voted(masks, vote, token, hour));
        let mi = mask_pos(masks, vote.mask_id, 0);
        lemma_mask_pos(masks, vote.mask_id, 0);
        lemma_mask_pos(masks, x, 0);
        if mi < masks.len() {
            lemma_mask_pos_after_update(
                masks,
                mi,
                EntryView {
                    mask_id: masks[mi].mask_id,
                    bucket: voted(masks[mi].bucket, vote, token, hour),
                },
                x,
                0,
            );
        } else {
            let e = EntryView {
                mask_id: vote.mask_id,
                bucket: voted(fresh_bucket(), vote, token, hour),
            };
            if mask_pos(masks, x, 0) < masks.len() {
                lemma_mask_pos_after_push(masks, e, x, 0);
            } else {
                lemma_mask_pos(masks.push(e), x, 0);
                let p = mask_pos(masks.push(e), x, 0);
                if p < masks.len() {
                    assert(masks.push(e)[p] == masks[p]);
                }
            }
        }
    }
}

proof fn lemma_vote_fills_by_one(
    m: MapView,
    code: Seq<u8>,
    vote: VoteView,
    token: Seq<u8>,
    hour: nat,
)
    requires
        well_formed(m.countries),
        m.total < MAX_BUCKETS,
        masks_of(m.countries, code).len() < MAX_BUCKETS_PER_COUNTRY,
    ensures
        cast(m, code, vote, token, hour).total <= m.total + 1,
        masks_of(cast(m, code, vote, token, hour).countries, code).len() <= masks_of(
            m.countries,
            code,
        ).len() + 1,
{
    let after = cast(m, code, vote, token, hour).countries;
    lemma_country_pos(m.countries, code, 0);
    assert(after == countries_voted(m.countries, code, vote, token, hour));
    lemma_country_pos(after, code, 0);
    let ci = country_pos(m.countries, code, 0);
    assert(after[ci].code == code);
    assert(country_pos(after, code, 0) == ci) by {
        let cj = country_pos(after, code, 0);
        if cj < ci {
            assert(after[cj] == m.countries[cj]);
        }
    }
    let masks = masks_of(m.countries, code);
    assert(masks_of(after, code) == masks_voted(masks, vote, token, hour));
    lemma_mask_pos(masks, vote.mask_id, 0);
}

/// While there is room for a whole report, each of its votes is counted, exactly once: the counts
/// of every mask that it names move by what its vote says, and no other bucket changes.
pub proof fn report_counts_each_vote_once(
    m: MapView,
    code: Seq<u8>,
    votes: Seq<VoteView>,
    token: Seq<u8>,
    hour: nat,
    k: int,
    x: Seq<char>,
)
    requires
        well_formed(m.countries),
        distinct_votes(votes),
        m.total + votes.len() <= 100_000,
        masks_of(m.countries, code).len() + votes.len() <= 10_000,
    ensures
        ({
            let after = cast_all(m, code, votes, token, hour).countries;
            &&& 0 <= k < votes.len() ==> {
                let was = bucket_at(m.countries, code, votes[k].mask_id);
                let got = bucket_at(after, code, votes[k].mask_id);
                let success = if was is Some {
                    was->0.success
                } else {
                    0
                };
                let fail = if was is Some {
                    was->0.fail
                } else {
                    0
                };
                &&& got is Some
                &&& success < u64::MAX ==> got->0.success == success + (if votes[k].success {
                    1int
                } else {
                    0
                })
                &&& fail < u64::MAX ==> got->0.fail == fail + (if votes[k].fail {
                    1int
                } else {
                    0
                })
                &&& got->0.hour == hour
            }
            &&& (forall|j: int| 0 <= j < votes.len() ==> (#[trigger] votes[j]).mask_id != x)
                ==> bucket_at(after, code, x) == bucket_at(m.countries, code, x)
        }),
{
    lemma_report_counts(m, code, votes, token, hour, k, x);
}

proof fn lemma_report_counts(
    m: MapView,
    code: Seq<u8>,
    votes: Seq<VoteView>,
    token: Seq<u8>,
    hour: nat,
    k: int,
    x: Seq<char>,
)
    requires
        well_formed(m.countries),
        distinct_votes(votes),
        m.total + votes.len() <= MAX_BUCKETS,
        masks_of(m.countries, code).len() + votes.len() <= MAX_BUCKETS_PER_COUNTRY,
    ensures
        ({
            let after = cast_all(m, code, votes, token, hour);
            &&& after.total <= m.total + votes.len()
            &&& masks_of(after.countries, code).len() <= masks_of(m.countries, code).len()
                + votes.len()
            &&& 0 <= k < votes.len() ==> bucket_at(after.countries, code, votes[k].mask_id) == Some(
                voted(
                    match bucket_at(m.countries, code, votes[k].mask_id) {
                        Some(b) => b,
                        None => fresh_bucket(),
                    },
                    votes[k],
                    token,
                    hour,
                ),
            )
            &&& (forall|j: int| 0 <= j < votes.len() ==> (#[trigger] votes[j]).mask_id != x)
                ==> bucket_at(after.countries, code, x) == bucket_at(m.countries, code, x)
        }),
    decreases votes.len(),
{
    if votes.len() > 0 {
        let rest = votes.drop_last();
        let last = votes.last();
        let n = votes.len() - 1;
        let before = cast_all(m, code, rest, token, hour);
        assert forall|i: int, j: int| 0 <= i < j < rest.len() implies #[trigger] rest[i].mask_id
            != #[trigger] rest[j].mask_id by {
            assert(rest[i] == votes[i] && rest[j] == votes[j]);
        }
        report_keeps_table_in_order(m, code, rest, token, hour);
        lemma_report_counts(m, code, rest, token, hour, k, x);
        lemma_vote_fills_by_one(before, code, last, token, hour);
        if 0 <= k < n {
            assert(rest[k] == votes[k]);
            assert(votes[k].mask_id != votes[n].mask_id);
            vote_pushes_nothing_out_while_there_is_room(
                before,
                code,
                last,
                token,
                hour,
                code,
                votes[k].mask_id,
            );
        }
        if k == n {
            assert forall|j: int| 0 <= j < rest.len() implies (#[trigger] rest[j]).mask_id
                != last.mask_id by {
                assert(rest[j] == votes[j]);
                assert(votes[j].mask_id != votes[n].mask_id);
            }
            lemma_report_counts(m, code, rest, token, hour, k, last.mask_id);
            vote_is_counted(before, code, last, token, hour);
        }
        if forall|j: int| 0 <= j < votes.len() ==> (#[trigger] votes[j]).mask_id != x {
            assert forall|j: int| 0 <= j < rest.len() implies (#[trigger] rest[j]).mask_id != x by {
                assert(rest[j] == votes[j]);
            }
            assert(votes[n].mask_id != x);
            vote_pushes_nothing_out_while_there_is_room(before, code, last, token, hour, code, x);
        }
    }
}

/// The bucket that a full table gives up is the one without a report for longest among the first
/// 32, the first of them where several are equally old; the table's count goes down by one.
pub proof fn full_table_gives_up_the_oldest(m: MapView, cj: int, mj: int) -> (v: (int, int))
    requires
        bucket_sum(m.countries) > 0,
        0 <= cj < m.countries.len(),
        0 <= mj < m.countries[cj].masks.len(),
        buckets_before(m.countries, cj) + mj < 32,
    ensures
        0 <= v.0 < m.countries.len(),
        0 <= v.1 < m.countries[v.0].masks.len(),
        buckets_before(m.countries, v.0) + v.1 < 32,
        m.countries[v.0].masks[v.1].bucket.hour <= m.countries[cj].masks[mj].bucket.hour,
        buckets_before(m.countries, cj) + mj < buckets_before(m.countries, v.0) + v.1
            ==> m.countries[v.0].masks[v.1].bucket.hour < m.countries[cj].masks[mj].bucket.hour,
        m.total > 0 ==> evicted(m).total == m.total - 1,
        m.countries[v.0].masks.len() > 1 ==> {
            &&& evicted(m).countries.len() == m.countries.len()
            &&& evicted(m).countries[v.0].code == m.countries[v.0].code
            &&& evicted(m).countries[v.0].masks == m.countries[v.0].masks.remove(v.1)
            &&& cj != v.0 ==> evicted(m).countries[cj] == m.countries[cj]
        },
        m.countries[v.0].masks.len() == 1 ==> evicted(m).countries == m.countries.remove(v.0),
{
    let v = full_table_has_a_victim(m);
    assert(in_sample(m.countries, cj, mj));
    v
}

/// The bucket that a full country gives up is the one without a report for longest, the first of
/// them where several are equally old.
pub proof fn full_country_gives_up_its_oldest(masks: Seq<EntryView>, j: int) -> (i: int)
    requires
        0 <= j < masks.len(),
    ensures
        0 <= i < masks.len(),
        masks[i].bucket.hour <= masks[j].bucket.hour,
        j < i ==> masks[i].bucket.hour < masks[j].bucket.hour,
        without_oldest(masks) == masks.remove(i),
{
    country_has_an_oldest(masks)
}

proof fn lemma_filter_keeps_pos(
    masks: Seq<EntryView>,
    kept: spec_fn(EntryView) -> bool,
    e: EntryView,
)
    requires
        distinct_masks(masks),
    ensures
        masks.filter(kept).contains(e) <==> masks.contains(e) && kept(e),
{
    let left = masks.filter(kept);
    if left.contains(e) {
        let k = choose|k: int| 0 <= k < left.len() && left[k] == e;
        masks.lemma_filter_pred(kept, k);
        masks.lemma_filter_contains_rev(kept, e);
    }
    if masks.contains(e) && kept(e) {
        let k = choose|k: int| 0 <= k < masks.len() && masks[k] == e;
        masks.lemma_filter_contains(kept, k);
    }
}

/// A sweep keeps exactly the buckets of a country that have had a report within the given hours,
/// and drops the rest.
pub proof fn sweep_keeps_recent_buckets(
    masks: Seq<EntryView>,
    now_hour: nat,
    max_age: nat,
    e: EntryView,
)
    requires
        distinct_masks(masks),
    ensures
        recent_masks(masks, now_hour, max_age).contains(e) <==> masks.contains(e) && now_hour
            <= e.bucket.hour + max_age,
{
    lemma_filter_keeps_pos(masks, |x: EntryView| recent(x, now_hour, max_age), e);
}

/// A sweep goes through the countries one by one: each keeps its place, its code and its recent
/// buckets, and one that has none left is gone.
pub proof fn sweep_goes_country_by_country(
    countries: Seq<CountryView>,
    c: CountryView,
    now_hour: nat,
    max_age: nat,
)
    ensures
        swept(seq![], 0, now_hour, max_age).len() == 0,
        ({
            let n = countries.len() as int;
            let before = swept(countries, n, now_hour, max_age);
            let after = swept(countries.push(c), n + 1, now_hour, max_age);
            let left = recent_masks(c.masks, now_hour, max_age);
            &&& left.len() == 0 ==> after == before
            &&& left.len() > 0 ==> after == before.push(CountryView { code: c.code, masks: left })
        }),
{
    lemma_swept_prefix(countries, c, countries.len() as int, now_hour, max_age);
}

proof fn lemma_swept_prefix(
    countries: Seq<CountryView>,
    c: CountryView,
    n: int,
    now_hour: nat,
    max_age: nat,
)
    requires
        n <= countries.len(),
    ensures
        swept(countries.push(c), n, now_hour, max_age) == swept(countries, n, now_hour, max_age),
    decreases n,
{
    if n > 0 {
        lemma_swept_prefix(countries, c, n - 1, now_hour, max_age);
    }
}

/// Room is made only where it is needed: a table with room, in a country with room, stays as it
/// is; a country that has its ten thousand gives up its oldest bucket and no other does.
pub proof fn room_is_made_where_it_is_needed(m: MapView, code: Seq<u8>, other: Seq<u8>)
    requires
        well_formed(m.countries),
        m.total < 100_000,
        other != code,
    ensures
        masks_of(m.countries, code).len() < 10_000 ==> room_made(m, code) == m,
        masks_of(m.countries, code).len() >= 10_000 ==> {
            let after = room_made(m, code);
            &&& masks_of(after.countries, code) == without_oldest(masks_of(m.countries, code))
            &&& masks_of(after.countries, other) == masks_of(m.countries, other)
            &&& m.total > 0 ==> after.total == m.total - 1
        },
{
    if masks_of(m.countries, code).len() >= 10_000 {
        lemma_evicted_from(m, code);
        let after = evicted_from(m, code).countries;
        let ci = country_pos(m.countries, code, 0);
        lemma_country_pos(m.countries, code, 0);
        assert(after[ci].code == code);
        lemma_country_found(after, ci);
        let oi = country_pos(m.countries, other, 0);
        lemma_country_pos(m.countries, other, 0);
        lemma_country_pos(after, other, 0);
        if oi < m.countries.len() {
            assert(after[oi] == m.countries[oi]);
            lemma_country_found(after, oi);
        } else {
            let oj = country_pos(after, other, 0);
            if oj < after.len() {
                assert(m.countries[oj].code == after[oj].code);
            }
        }
    }
}

} // verus!
