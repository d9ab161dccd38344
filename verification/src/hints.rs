//! Which masks a region is told about, and in what order.

use crate::feedback_laws::{lemma_country_pos, lemma_found, lemma_mask_pos};
use crate::feedback_map::{
    bucket_at, distinct_masks, entries_view, find_country, mask_pos, masks_of, well_formed,
    BucketView, CountryView, EntryView, FeedbackMap, MaskBucket, MaskEntry,
};
use crate::hll::{blank, estimate_of, union_of, Hll};
use crate::region::{codes, rollup_members, rollup_of};
use vstd::hash_map::StringHashMap;
use vstd::hash_set::StringHashSet;
use vstd::prelude::*;

verus! {

/// How many votes of one kind each counted reporter can be worth.
pub const MAX_VOTES_PER_REPORTER: u64 = 4;

/// Most masks that one region is told about.
pub const MAX_HINTS: usize = 32;

/// Votes that count towards a mask's score. The score is `success / (success + fail)`, and
/// zero where there are no votes.
#[derive(Clone, Copy, PartialEq, Eq, Structural)]
pub struct Score {
    pub success: u64,
    pub fail: u64,
}

/// A mask and the score it is recommended with.
pub struct Hint {
    pub mask_id: String,
    pub score: Score,
}

#[verifier::ext_equal]
pub struct HintView {
    pub mask_id: Seq<char>,
    pub score: Score,
}

impl View for Hint {
    type V = HintView;

    open spec fn view(&self) -> HintView {
        HintView { mask_id: self.mask_id@, score: self.score }
    }
}

/// The views of a list of hints.
pub open spec fn hints_view(hints: Seq<Hint>) -> Seq<HintView> {
    hints.map_values(|h: Hint| h@)
}

/// How many votes of one kind may count for so many reporters.
pub open spec fn vote_cap(reporters: nat) -> nat {
    if reporters * MAX_VOTES_PER_REPORTER > u64::MAX {
        u64::MAX as nat
    } else {
        reporters * (MAX_VOTES_PER_REPORTER as nat)
    }
}

/// The votes that count, each kind held to the cap.
pub open spec fn capped(success: nat, fail: nat, reporters: nat) -> Score {
    let cap = vote_cap(reporters);
    Score {
        success: (if success < cap {
            success
        } else {
            cap
        }) as u64,
        fail: (if fail < cap {
            fail
        } else {
            cap
        }) as u64,
    }
}

/// `a` is a strictly higher score than `b`.
pub open spec fn beats(a: Score, b: Score) -> bool {
    if a.success == 0 {
        false
    } else if b.success == 0 {
        true
    } else {
        a.success * b.fail > b.success * a.fail
    }
}

/// Reports on one mask, taken together over several countries.
#[verifier::ext_equal]
pub struct Rolled {
    pub reporters: Seq<u8>,
    pub success: nat,
    pub fail: nat,
}

/// A sum that the counter's width bounds.
pub open spec fn bounded_sum(a: nat, b: nat) -> nat {
    if a + b > u64::MAX {
        u64::MAX as nat
    } else {
        a + b
    }
}

/// A bucket's reports added to a roll-up.
pub open spec fn rolled_with(r: Rolled, b: BucketView) -> Rolled {
    Rolled {
        reporters: union_of(r.reporters, b.reporters),
        success: bounded_sum(r.success, b.success),
        fail: bounded_sum(r.fail, b.fail),
    }
}

/// The reports on a mask from the first `n` countries of a list.
pub open spec fn rolled_up(
    countries: Seq<CountryView>,
    members: Seq<Seq<u8>>,
    n: int,
    id: Seq<char>,
) -> Rolled
    decreases n,
{
    if n <= 0 {
        Rolled { reporters: blank(), success: 0, fail: 0 }
    } else {
        let before = rolled_up(countries, members, n - 1, id);
        match bucket_at(countries, members[n - 1], id) {
            Some(b) => rolled_with(before, b),
            None => before,
        }
    }
}

/// Whether any of the first `n` countries of a list has reports on a mask.
pub open spec fn reported(
    countries: Seq<CountryView>,
    members: Seq<Seq<u8>>,
    n: int,
    id: Seq<char>,
) -> bool {
    exists|k: int| 0 <= k < n && (#[trigger] bucket_at(countries, members[k], id)) is Some
}

/// The score that a mask is recommended with in a country: from the country's own reporters
/// where there are enough of them, else from its whole continent's; `None` where even those
/// are too few.
pub open spec fn recommended(
    countries: Seq<CountryView>,
    k_anon: nat,
    code: Seq<u8>,
    id: Seq<char>,
) -> Option<Score> {
    let members = rollup_of(code);
    let n = members.len() as int;
    let own = bucket_at(countries, code, id);
    if own is Some && estimate_of(own->0.reporters) >= k_anon {
        Some(capped(own->0.success, own->0.fail, estimate_of(own->0.reporters)))
    } else if reported(countries, members, n, id) && estimate_of(
        rolled_up(countries, members, n, id).reporters,
    ) >= k_anon {
        let r = rolled_up(countries, members, n, id);
        Some(capped(r.success, r.fail, estimate_of(r.reporters)))
    } else {
        None
    }
}

/// Highest scores first.
pub open spec fn ranked(out: Seq<HintView>) -> bool {
    forall|i: int, j: int|
        0 <= i < j < out.len() ==> !beats((#[trigger] out[j]).score, (#[trigger] out[i]).score)
}

/// Whether a list has a mask.
pub open spec fn mentions(out: Seq<HintView>, id: Seq<char>) -> bool {
    exists|i: int| 0 <= i < out.len() && (#[trigger] out[i]).mask_id == id
}

/// `out` holds the best of the recommended masks among `done`: each once, with its score,
/// highest first, and none left out unless the list is full of scores at least as high.
pub open spec fn is_top(
    out: Seq<HintView>,
    countries: Seq<CountryView>,
    k_anon: nat,
    code: Seq<u8>,
    done: Set<Seq<char>>,
) -> bool {
    &&& out.len() <= MAX_HINTS
    &&& ranked(out)
    &&& forall|i: int, j: int|
        0 <= i < j < out.len() ==> (#[trigger] out[i]).mask_id != (#[trigger] out[j]).mask_id
    &&& forall|i: int|
        0 <= i < out.len() ==> done.contains((#[trigger] out[i]).mask_id) && recommended(
            countries,
            k_anon,
            code,
            out[i].mask_id,
        ) == Some(out[i].score)
    &&& forall|id: Seq<char>| #[trigger]
        done.contains(id) && recommended(countries, k_anon, code, id) is Some && !mentions(out, id)
            ==> out.len() == MAX_HINTS && !beats(
            recommended(countries, k_anon, code, id)->0,
            out[MAX_HINTS - 1].score,
        )
}

/// `out` is what a region is told: the best of all its recommended masks.
pub open spec fn is_hints(
    out: Seq<HintView>,
    countries: Seq<CountryView>,
    k_anon: nat,
    code: Seq<u8>,
) -> bool {
    is_top(out, countries, k_anon, code, Set::full())
}

/// The votes that count towards a score: each kind is held to [`MAX_VOTES_PER_REPORTER`]
/// times the number of reporters.
pub fn capped_score(success_count: u64, fail_count: u64, reporter_estimate: u64) -> (score: Score)
    ensures
        score == capped(success_count as nat, fail_count as nat, reporter_estimate as nat),
{
    let wide: u128 = reporter_estimate as u128 * MAX_VOTES_PER_REPORTER as u128;
    let cap: u64 = if wide > u64::MAX as u128 {
        u64::MAX
    } else {
        wide as u64
    };
    Score {
        success: if success_count < cap {
            success_count
        } else {
            cap
        },
        fail: if fail_count < cap {
            fail_count
        } else {
            cap
        },
    }
}

fn higher(a: &Score, b: &Score) -> (r: bool)
    ensures
        r == beats(*a, *b),
{
    if a.success == 0 {
        false
    } else if b.success == 0 {
        true
    } else {
        proof {
            lemma_product_fits(a.success, b.fail);
            lemma_product_fits(b.success, a.fail);
        }
        a.success as u128 * b.fail as u128 > b.success as u128 * a.fail as u128
    }
}

proof fn lemma_product_fits(a: u64, b: u64)
    ensures
        0 <= a * b <= u128::MAX,
{
    assert(0 <= a * b <= 0xffff_ffff_ffff_ffff * 0xffff_ffff_ffff_ffff) by (nonlinear_arith)
        requires
            0 <= a <= 0xffff_ffff_ffff_ffff,
            0 <= b <= 0xffff_ffff_ffff_ffff,
    ;
}

impl MaskBucket {
    /// The votes that count towards this bucket's score.
    pub fn success_rate(&self) -> (score: Score)
        ensures
            score == capped(self@.success, self@.fail, estimate_of(self@.reporters)),
    {
        capped_score(self.success_count, self.fail_count, self.reporters.estimate())
    }
}

/// Scores are compared as the fractions they stand for.
pub proof fn score_order_is_by_fraction(a: Score, b: Score)
    requires
        a.success + a.fail > 0,
        b.success + b.fail > 0,
    ensures
        beats(a, b) <==> a.success * (b.success + b.fail) > b.success * (a.success + a.fail),
{
    let (s, f, t, g) = (a.success as int, a.fail as int, b.success as int, b.fail as int);
    assert(s * (t + g) == s * t + s * g) by (nonlinear_arith);
    assert(t * (s + f) == s * t + t * f) by (nonlinear_arith);
    if s == 0 {
        assert(s * g == 0) by (nonlinear_arith)
            requires
                s == 0,
        ;
        assert(t * f >= 0) by (nonlinear_arith)
            requires
                t >= 0,
                f >= 0,
        ;
    } else if t == 0 {
        assert(s * g > 0) by (nonlinear_arith)
            requires
                s > 0,
                g > 0,
        ;
        assert(t * f == 0) by (nonlinear_arith)
            requires
                t == 0,
        ;
    }
}

/// However often one reporter votes, no more than [`MAX_VOTES_PER_REPORTER`] votes of a kind
/// count for each reporter.
pub proof fn score_is_bounded_by_reporters(success: nat, fail: nat, reporters: nat)
    ensures
        capped(success, fail, reporters).success <= reporters * MAX_VOTES_PER_REPORTER,
        capped(success, fail, reporters).fail <= reporters * MAX_VOTES_PER_REPORTER,
        capped(success, fail, reporters).success <= success,
        capped(success, fail, reporters).fail <= fail,
{
}

proof fn lemma_not_beats_transitive(a: Score, b: Score, c: Score)
    requires
        !beats(a, b),
        !beats(b, c),
    ensures
        !beats(a, c),
{
    let (s, f) = (a.success as int, a.fail as int);
    let (t, g) = (b.success as int, b.fail as int);
    let (u, h) = (c.success as int, c.fail as int);
    if s > 0 && t > 0 && u > 0 {
        assert(s * h <= u * f) by (nonlinear_arith)
            requires
                s > 0,
                t > 0,
                u > 0,
                f >= 0,
                g >= 0,
                h >= 0,
                s * g <= t * f,
                t * h <= u * g,
        {
            assert((t * h) * s <= (u * g) * s) by (nonlinear_arith)
                requires
                    s > 0,
                    t * h <= u * g,
            ;
            assert((s * g) * u <= (t * f) * u) by (nonlinear_arith)
                requires
                    u > 0,
                    s * g <= t * f,
            ;
            assert((t * h) * s == t * (s * h)) by (nonlinear_arith);
            assert((u * g) * s == (s * g) * u) by (nonlinear_arith);
            assert((t * f) * u == t * (u * f)) by (nonlinear_arith);
            assert(t * (s * h) <= t * (u * f));
            assert(s * h <= u * f) by (nonlinear_arith)
                requires
                    t > 0,
                    t * (s * h) <= t * (u * f),
            ;
        }
    }
}

proof fn lemma_beats_asymmetric(a: Score, b: Score)
    requires
        beats(a, b),
    ensures
        !beats(b, a),
{
}

/// The first place from `from` on whose score is lower.
pub open spec fn place_for(out: Seq<HintView>, score: Score, from: int) -> int
    decreases out.len() - from,
{
    if from >= out.len() {
        out.len() as int
    } else if beats(score, out[from].score) {
        from
    } else {
        place_for(out, score, from + 1)
    }
}

/// A list with one more hint in its place, cut to [`MAX_HINTS`].
pub open spec fn placed(out: Seq<HintView>, h: HintView) -> Seq<HintView> {
    let longer = out.insert(place_for(out, h.score, 0), h);
    if longer.len() > MAX_HINTS {
        longer.take(MAX_HINTS as int)
    } else {
        longer
    }
}

proof fn lemma_place_for(out: Seq<HintView>, score: Score, from: int)
    requires
        0 <= from <= out.len(),
    ensures
        from <= place_for(out, score, from) <= out.len(),
        place_for(out, score, from) < out.len() ==> beats(
            score,
            out[place_for(out, score, from)].score,
        ),
        forall|k: int|
            from <= k < place_for(out, score, from) ==> !beats(score, (#[trigger] out[k]).score),
    decreases out.len() - from,
{
    if from < out.len() && !beats(score, out[from].score) {
        lemma_place_for(out, score, from + 1);
    }
}

proof fn lemma_placed_is_top(
    out: Seq<HintView>,
    h: HintView,
    countries: Seq<CountryView>,
    k_anon: nat,
    code: Seq<u8>,
    done: Set<Seq<char>>,
)
    requires
        is_top(out, countries, k_anon, code, done),
        !done.contains(h.mask_id),
        recommended(countries, k_anon, code, h.mask_id) == Some(h.score),
    ensures
        is_top(placed(out, h), countries, k_anon, code, done.insert(h.mask_id)),
{
    let p = place_for(out, h.score, 0);
    lemma_place_for(out, h.score, 0);
    let longer = out.insert(p, h);
    let after = placed(out, h);
    let now = done.insert(h.mask_id);
    assert forall|i: int| 0 <= i < longer.len() implies #[trigger] longer[i] == (if i < p {
        out[i]
    } else if i == p {
        h
    } else {
        out[i - 1]
    }) by {}
    assert forall|i: int, j: int| 0 <= i < j < longer.len() implies !beats(
        (#[trigger] longer[j]).score,
        (#[trigger] longer[i]).score,
    ) by {
        if i == p {
            lemma_beats_asymmetric(h.score, out[p].score);
            if j - 1 > p {
                lemma_not_beats_transitive(out[j - 1].score, out[p].score, h.score);
            }
        }
    }
    assert forall|i: int, j: int| 0 <= i < j < longer.len() implies (#[trigger] longer[i]).mask_id
        != (#[trigger] longer[j]).mask_id by {
        if i == p {
            assert(done.contains(out[j - 1].mask_id));
        } else if j == p {
            assert(done.contains(out[i].mask_id));
        }
    }
    assert forall|i: int| 0 <= i < after.len() implies now.contains((#[trigger] after[i]).mask_id)
        && recommended(countries, k_anon, code, after[i].mask_id) == Some(after[i].score) by {
        assert(after[i] == longer[i]);
        if i != p {
            let k = if i < p {
                i
            } else {
                i - 1
            };
            assert(done.contains(out[k].mask_id));
        }
    }
    assert forall|id: Seq<char>| #[trigger]
        now.contains(id) && recommended(countries, k_anon, code, id) is Some && !mentions(
            after,
            id,
        ) implies after.len() == MAX_HINTS && !beats(
        recommended(countries, k_anon, code, id)->0,
        after[MAX_HINTS - 1].score,
    ) by {
        let s = recommended(countries, k_anon, code, id)->0;
        if id == h.mask_id {
            if p < after.len() {
                assert(after[p].mask_id == id);
                assert(mentions(after, id));
            }
            assert(p == MAX_HINTS);
            assert(after[MAX_HINTS - 1] == out[MAX_HINTS - 1]);
        } else if mentions(out, id) {
            let i = choose|i: int| 0 <= i < out.len() && (#[trigger] out[i]).mask_id == id;
            let k = if i < p {
                i
            } else {
                i + 1
            };
            assert(longer[k] == out[i]);
            if k < after.len() {
                assert(after[k].mask_id == id);
                assert(mentions(after, id));
            }
            assert(k == MAX_HINTS);
            assert(out[i].score == s);
            assert(after[MAX_HINTS - 1] == longer[MAX_HINTS - 1]);
            assert(!beats(longer[k].score, longer[MAX_HINTS - 1].score));
        } else {
            assert(done.contains(id));
            let last = out[MAX_HINTS - 1].score;
            assert(!beats(s, last));
            if p < MAX_HINTS {
                assert(longer[MAX_HINTS as int] == out[MAX_HINTS - 1]);
                assert(!beats(longer[MAX_HINTS as int].score, longer[MAX_HINTS - 1].score));
                lemma_not_beats_transitive(s, last, longer[MAX_HINTS - 1].score);
            }
            assert(after[MAX_HINTS - 1] == longer[MAX_HINTS - 1]);
        }
    }
    assert(ranked(after));
}

proof fn lemma_top_of_more(
    out: Seq<HintView>,
    id: Seq<char>,
    countries: Seq<CountryView>,
    k_anon: nat,
    code: Seq<u8>,
    done: Set<Seq<char>>,
)
    requires
        is_top(out, countries, k_anon, code, done),
        done.contains(id) || recommended(countries, k_anon, code, id) is None,
    ensures
        is_top(out, countries, k_anon, code, done.insert(id)),
{
    let now = done.insert(id);
    assert forall|x: Seq<char>| #[trigger]
        now.contains(x) && recommended(countries, k_anon, code, x) is Some && !mentions(
            out,
            x,
        ) implies out.len() == MAX_HINTS && !beats(
        recommended(countries, k_anon, code, x)->0,
        out[MAX_HINTS - 1].score,
    ) by {
        assert(done.contains(x));
    }
}

/// Puts a hint in its place, behind all whose score is not lower.
fn place(top: &mut Vec<Hint>, hint: Hint)
    requires
        old(top)@.len() <= MAX_HINTS,
    ensures
        hints_view(final(top)@) == placed(hints_view(old(top)@), hint@),
{
    let ghost v = hints_view(top@);
    let mut i: usize = 0;
    while i < top.len() && !higher(&hint.score, &top[i].score)
        invariant
            i <= top.len(),
            top@.len() <= MAX_HINTS,
            v == hints_view(top@),
            place_for(v, hint.score, 0) == place_for(v, hint.score, i as int),
        decreases top.len() - i,
    {
        assert(v[i as int].score == top@[i as int].score);
        i += 1;
    }
    proof {
        if i < top.len() {
            assert(v[i as int].score == top@[i as int].score);
        }
    }
    top.insert(i, hint);
    assert(hints_view(top@) =~= v.insert(i as int, hint@));
    if top.len() > MAX_HINTS {
        top.truncate(MAX_HINTS);
        assert(hints_view(top@) =~= placed(v, hint@));
    }
}

/// Reports on one mask, taken together over a region.
pub struct RegionEntry {
    pub mask_id: String,
    pub reporters: Hll,
    pub success: u64,
    pub fail: u64,
}

impl RegionEntry {
    /// What the entry has gathered.
    pub open spec fn rolled(&self) -> Rolled {
        Rolled {
            reporters: self.reporters@,
            success: self.success as nat,
            fail: self.fail as nat,
        }
    }

    fn take_in(&mut self, b: &MaskBucket)
        ensures
            final(self).mask_id == old(self).mask_id,
            final(self).rolled() == rolled_with(old(self).rolled(), b@),
    {
        self.reporters.merge(&b.reporters);
        self.success = self.success.saturating_add(b.success_count);
        self.fail = self.fail.saturating_add(b.fail_count);
    }
}

proof fn lemma_unreported(
    countries: Seq<CountryView>,
    members: Seq<Seq<u8>>,
    n: int,
    id: Seq<char>,
)
    requires
        !reported(countries, members, n, id),
        0 <= n,
    ensures
        rolled_up(countries, members, n, id) == (Rolled {
            reporters: blank(),
            success: 0,
            fail: 0,
        }),
    decreases n,
{
    if n > 0 {
        assert(bucket_at(countries, members[n - 1], id) is None);
        assert(!reported(countries, members, n - 1, id)) by {
            if reported(countries, members, n - 1, id) {
                let k = choose|k: int|
                    0 <= k < n - 1 && (#[trigger] bucket_at(countries, members[k], id)) is Some;
                assert(0 <= k < n);
            }
        }
        lemma_unreported(countries, members, n - 1, id);
    }
}

/// The state of the gathering when `n` countries and `k` masks of the next are done.
spec fn gathered(
    totals: Seq<RegionEntry>,
    index: Map<Seq<char>, usize>,
    countries: Seq<CountryView>,
    members: Seq<Seq<u8>>,
    n: int,
    masks: Seq<EntryView>,
    k: int,
) -> bool {
    &&& forall|id: Seq<char>| #[trigger]
        index.contains_key(id) ==> index[id] < totals.len() && totals[index[id] as int].mask_id@
            == id
    &&& forall|j: int|
        0 <= j < totals.len() ==> {
            let id = (#[trigger] totals[j]).mask_id@;
            &&& index.contains_key(id)
            &&& index[id] == j
            &&& totals[j].rolled() == (if mask_pos(masks, id, 0) < k {
                rolled_up(countries, members, n + 1, id)
            } else {
                rolled_up(countries, members, n, id)
            })
        }
    &&& forall|id: Seq<char>| #[trigger]
        index.contains_key(id) <==> reported(countries, members, n, id) || mask_pos(masks, id, 0)
            < k
}

proof fn lemma_gathered_start(
    totals: Seq<RegionEntry>,
    index: Map<Seq<char>, usize>,
    countries: Seq<CountryView>,
    members: Seq<Seq<u8>>,
    n: int,
    masks: Seq<EntryView>,
)
    requires
        gathered(totals, index, countries, members, n, seq![], 0),
    ensures
        gathered(totals, index, countries, members, n, masks, 0),
{
    assert forall|id: Seq<char>| #[trigger] mask_pos(masks, id, 0) >= 0 by {
        lemma_mask_pos(masks, id, 0);
    }
    assert forall|id: Seq<char>| #[trigger] mask_pos(seq![], id, 0) >= 0 by {
        lemma_mask_pos(seq![], id, 0);
    }
}

proof fn lemma_gathered_end(
    totals: Seq<RegionEntry>,
    index: Map<Seq<char>, usize>,
    countries: Seq<CountryView>,
    members: Seq<Seq<u8>>,
    n: int,
    masks: Seq<EntryView>,
)
    requires
        0 <= n < members.len(),
        masks == masks_of(countries, members[n]),
        gathered(totals, index, countries, members, n, masks, masks.len() as int),
    ensures
        gathered(totals, index, countries, members, n + 1, seq![], 0),
{
    assert forall|id: Seq<char>| #[trigger] mask_pos(seq![], id, 0) >= 0 by {
        lemma_mask_pos(seq![], id, 0);
    }
    assert forall|id: Seq<char>| #[trigger]
        mask_pos(masks, id, 0) < masks.len() <==> bucket_at(countries, members[n], id) is Some by {
        lemma_mask_pos(masks, id, 0);
    }
    assert forall|id: Seq<char>| #[trigger] reported(countries, members, n + 1, id) <==> (reported(
        countries,
        members,
        n,
        id,
    ) || mask_pos(masks, id, 0) < masks.len()) by {
        if reported(countries, members, n, id) {
            let k = choose|k: int|
                0 <= k < n && (#[trigger] bucket_at(countries, members[k], id)) is Some;
            assert(0 <= k < n + 1);
        }
        if reported(countries, members, n + 1, id) {
            let k = choose|k: int|
                0 <= k < n + 1 && (#[trigger] bucket_at(countries, members[k], id)) is Some;
            if k < n {
                assert(reported(countries, members, n, id));
            }
        }
        if mask_pos(masks, id, 0) < masks.len() {
            assert(bucket_at(countries, members[n], id) is Some);
        }
    }
    assert forall|j: int| 0 <= j < totals.len() implies ({
        let id = (#[trigger] totals[j]).mask_id@;
        totals[j].rolled() == rolled_up(countries, members, n + 1, id)
    }) by {
        let id = totals[j].mask_id@;
        if mask_pos(masks, id, 0) >= masks.len() {
            assert(bucket_at(countries, members[n], id) is None);
        }
    }
}

/// Gathers the reports of several countries, one entry per mask.
fn region_totals(map: &FeedbackMap, members: &Vec<[u8; 2]>) -> (totals: Vec<RegionEntry>)
    requires
        well_formed(map@.countries),
    ensures
        forall|i: int, j: int|
            0 <= i < j < totals@.len() ==> (#[trigger] totals@[i]).mask_id@ != (
            #[trigger] totals@[j]).mask_id@,
        forall|j: int|
            0 <= j < totals@.len() ==> (#[trigger] totals@[j]).rolled() == rolled_up(
                map@.countries,
                codes(members@),
                members@.len() as int,
                totals@[j].mask_id@,
            ) && reported(
                map@.countries,
                codes(members@),
                members@.len() as int,
                totals@[j].mask_id@,
            ),
        forall|id: Seq<char>|
            reported(map@.countries, codes(members@), members@.len() as int, id) ==> exists|j: int|
                0 <= j < totals@.len() && (#[trigger] totals@[j]).mask_id@ == id,
{
    let ghost countries = map@.countries;
    let ghost list = codes(members@);
    let mut totals: Vec<RegionEntry> = Vec::new();
    let mut index: StringHashMap<usize> = StringHashMap::new();
    let mut n: usize = 0;
    proof {
        assert forall|id: Seq<char>| #[trigger] mask_pos(seq![], id, 0) >= 0 by {
            lemma_mask_pos(seq![], id, 0);
        }
    }
    while n < members.len()
        invariant
            n <= members.len(),
            countries == map@.countries,
            well_formed(countries),
            list == codes(members@),
            gathered(totals@, index@, countries, list, n as int, seq![], 0),
        decreases members.len() - n,
    {
        let ci: usize = find_country(&map.countries, &members[n]);
        assert(list[n as int] == members@[n as int]@);
        let ghost masks = masks_of(countries, list[n as int]);
        proof {
            lemma_gathered_start(totals@, index@, countries, list, n as int, masks);
            lemma_country_pos(countries, list[n as int], 0);
        }
        if ci < map.countries.len() {
            let entries: &Vec<MaskEntry> = &map.countries[ci].masks;
            assert(countries[ci as int] == map.countries@[ci as int]@);
            assert(masks == entries_view(entries@));
            let mut k: usize = 0;
            while k < entries.len()
                invariant
                    k <= entries.len(),
                    n < members.len(),
                    masks == entries_view(entries@),
                    masks == masks_of(countries, list[n as int]),
                    distinct_masks(masks),
                    gathered(totals@, index@, countries, list, n as int, masks, k as int),
                decreases entries.len() - k,
            {
                let entry: &MaskEntry = &entries[k];
                let ghost id = entry.mask_id@;
                let ghost before = totals@;
                let ghost index_before = index@;
                proof {
                    assert(masks[k as int] == entry@);
                    lemma_found(masks, k as int);
                    assert forall|x: Seq<char>| #[trigger] mask_pos(masks, x, 0) < k + 1 <==> (mask_pos(
                        masks,
                        x,
                        0,
                    ) < k || x == id) by {
                        lemma_mask_pos(masks, x, 0);
                    }
                    assert(bucket_at(countries, list[n as int], id) == Some(entry.bucket@));
                }
                let at: usize = match index.get(entry.mask_id.as_str()) {
                    Some(j) => *j,
                    None => {
                        let j: usize = totals.len();
                        totals.push(
                            RegionEntry {
                                mask_id: entry.mask_id.clone(),
                                reporters: Hll::new(),
                                success: 0,
                                fail: 0,
                            },
                        );
                        index.insert(entry.mask_id.clone(), j);
                        proof {
                            lemma_unreported(countries, list, n as int, id);
                        }
                        j
                    },
                };
                assert(totals@[at as int].rolled() == rolled_up(countries, list, n as int, id));
                totals[at].take_in(&entry.bucket);
                assert(totals@[at as int].rolled() == rolled_up(
                    countries,
                    list,
                    n as int + 1,
                    id,
                ));
                k += 1;
            }
        }
        proof {
            lemma_gathered_end(totals@, index@, countries, list, n as int, masks);
        }
        n += 1;
    }
    proof {
        assert forall|id: Seq<char>|
            reported(countries, list, members@.len() as int, id) implies exists|j: int|
            0 <= j < totals@.len() && (#[trigger] totals@[j]).mask_id@ == id by {
            assert(index@.contains_key(id));
            assert(totals@[index@[id] as int].mask_id@ == id);
        }
    }
    totals
}

/// The masks that a country is told about: those with at least `k_anon` distinct reporters
/// in the country itself or, failing that, on its continent.
pub fn compute_top_masks(map: &FeedbackMap, k_anon: u64, country_code: [u8; 2]) -> (hints: Vec<
    Hint,
>)
    requires
        well_formed(map@.countries),
    ensures
        is_hints(hints_view(hints@), map@.countries, k_anon as nat, country_code@),
{
    let ghost countries = map@.countries;
    let ghost code = country_code@;
    let members: Vec<[u8; 2]> = rollup_members(&country_code);
    let ghost list = codes(members@);
    assert(list == rollup_of(code));
    let mut top: Vec<Hint> = Vec::new();
    let mut direct: StringHashSet = StringHashSet::new();
    let ci: usize = find_country(&map.countries, &country_code);
    let ghost own = masks_of(countries, code);
    proof {
        assert(hints_view(top@) =~= seq![]);
        lemma_country_pos(countries, code, 0);
        assert forall|id: Seq<char>| #[trigger] mask_pos(own, id, 0) >= 0 by {
            lemma_mask_pos(own, id, 0);
        }
    }
    if ci < map.countries.len() {
        let entries: &Vec<MaskEntry> = &map.countries[ci].masks;
        assert(countries[ci as int] == map.countries@[ci as int]@);
        let mut i: usize = 0;
        while i < entries.len()
            invariant
                i <= entries.len(),
                own == entries_view(entries@),
                own == masks_of(countries, code),
                distinct_masks(own),
                is_top(hints_view(top@), countries, k_anon as nat, code, direct@),
                forall|id: Seq<char>| #[trigger]
                    direct@.contains(id) <==> mask_pos(own, id, 0) < i && estimate_of(
                        bucket_at(countries, code, id)->0.reporters,
                    ) >= k_anon,
            decreases entries.len() - i,
        {
            let entry: &MaskEntry = &entries[i];
            let ghost id = entry.mask_id@;
            proof {
                assert(own[i as int] == entry@);
                lemma_found(own, i as int);
                assert forall|x: Seq<char>| #[trigger] mask_pos(own, x, 0) < i + 1 <==> (mask_pos(
                    own,
                    x,
                    0,
                ) < i || x == id) by {
                    lemma_mask_pos(own, x, 0);
                }
                assert(bucket_at(countries, code, id) == Some(entry.bucket@));
            }
            if entry.bucket.reporters.estimate() >= k_anon {
                let hint: Hint = Hint {
                    mask_id: entry.mask_id.clone(),
                    score: entry.bucket.success_rate(),
                };
                proof {
                    lemma_placed_is_top(
                        hints_view(top@),
                        hint@,
                        countries,
                        k_anon as nat,
                        code,
                        direct@,
                    );
                }
                place(&mut top, hint);
                direct.insert(entry.mask_id.clone());
            }
            i += 1;
        }
    }
    assert forall|id: Seq<char>| #[trigger]
        direct@.contains(id) <==> bucket_at(countries, code, id) is Some && estimate_of(
            bucket_at(countries, code, id)->0.reporters,
        ) >= k_anon by {
        lemma_mask_pos(own, id, 0);
    }
    let totals: Vec<RegionEntry> = region_totals(map, &members);
    let ghost mut done: Set<Seq<char>> = direct@;
    let mut j: usize = 0;
    while j < totals.len()
        invariant
            j <= totals.len(),
            list == rollup_of(code),
            list.len() == members@.len(),
            is_top(hints_view(top@), countries, k_anon as nat, code, done),
            forall|id: Seq<char>| #[trigger]
                direct@.contains(id) <==> bucket_at(countries, code, id) is Some && estimate_of(
                    bucket_at(countries, code, id)->0.reporters,
                ) >= k_anon,
            forall|id: Seq<char>| #[trigger]
                done.contains(id) <==> direct@.contains(id) || exists|i: int|
                    0 <= i < j && (#[trigger] totals@[i]).mask_id@ == id,
            forall|a: int, b: int|
                0 <= a < b < totals@.len() ==> (#[trigger] totals@[a]).mask_id@ != (
                #[trigger] totals@[b]).mask_id@,
            forall|i: int|
                0 <= i < totals@.len() ==> (#[trigger] totals@[i]).rolled() == rolled_up(
                    countries,
                    list,
                    list.len() as int,
                    totals@[i].mask_id@,
                ) && reported(countries, list, list.len() as int, totals@[i].mask_id@),
        decreases totals.len() - j,
    {
        let entry: &RegionEntry = &totals[j];
        let ghost id = entry.mask_id@;
        let ghost done_before = done;
        if !direct.contains(entry.mask_id.as_str()) {
            let estimate: u64 = entry.reporters.estimate();
            assert(entry.rolled() == rolled_up(countries, list, list.len() as int, id));
            assert(entry.rolled().reporters == entry.reporters@);
            assert(!done.contains(id));
            if estimate >= k_anon {
                let hint: Hint = Hint {
                    mask_id: entry.mask_id.clone(),
                    score: capped_score(entry.success, entry.fail, estimate),
                };
                proof {
                    lemma_placed_is_top(
                        hints_view(top@),
                        hint@,
                        countries,
                        k_anon as nat,
                        code,
                        done,
                    );
                }
                place(&mut top, hint);
            } else {
                proof {
                    assert(recommended(countries, k_anon as nat, code, id) is None);
                    lemma_top_of_more(
                        hints_view(top@),
                        id,
                        countries,
                        k_anon as nat,
                        code,
                        done,
                    );
                }
            }
        } else {
            proof {
                lemma_top_of_more(hints_view(top@), id, countries, k_anon as nat, code, done);
            }
        }
        proof {
            done = done.insert(id);
            assert(totals@[j as int].mask_id@ == id);
            assert forall|x: Seq<char>| #[trigger] done.contains(x) <==> direct@.contains(x)
                || exists|i: int| 0 <= i < j + 1 && (#[trigger] totals@[i]).mask_id@ == x by {
                if done_before.contains(x) && !direct@.contains(x) {
                    let i = choose|i: int| 0 <= i < j && (#[trigger] totals@[i]).mask_id@ == x;
                    assert(0 <= i < j + 1);
                }
                if exists|i: int| 0 <= i < j + 1 && (#[trigger] totals@[i]).mask_id@ == x {
                    let i = choose|i: int| 0 <= i < j + 1 && (#[trigger] totals@[i]).mask_id@ == x;
                    if i < j {
                        assert(done_before.contains(x));
                    }
                }
            }
        }
        j += 1;
    }
    proof {
        assert forall|id: Seq<char>| #[trigger]
            Set::<Seq<char>>::full().contains(id) && recommended(
                countries,
                k_anon as nat,
                code,
                id,
            ) is Some && !mentions(hints_view(top@), id) implies hints_view(top@).len() == MAX_HINTS
            && !beats(
            recommended(countries, k_anon as nat, code, id)->0,
            hints_view(top@)[MAX_HINTS - 1].score,
        ) by {
            if !direct@.contains(id) {
                assert(reported(countries, list, list.len() as int, id));
            }
            assert(done.contains(id));
        }
    }
    top
}

/// Enough distinct reporters have reported on a mask, in the country itself or on its whole
/// continent.
pub open spec fn has_enough_reporters(
    countries: Seq<CountryView>,
    k_anon: nat,
    code: Seq<u8>,
    id: Seq<char>,
) -> bool {
    ||| (bucket_at(countries, code, id) is Some && estimate_of(
        bucket_at(countries, code, id)->0.reporters,
    ) >= k_anon)
    ||| estimate_of(
        rolled_up(countries, rollup_of(code), rollup_of(code).len() as int, id).reporters,
    ) >= k_anon
}

/// Only masks that enough distinct reporters have reported on are ever recommended: enough
/// in the country itself, or enough on its continent.
pub proof fn recommended_is_k_anonymous(
    countries: Seq<CountryView>,
    k_anon: nat,
    code: Seq<u8>,
    id: Seq<char>,
)
    requires
        recommended(countries, k_anon, code, id) is Some,
    ensures
        has_enough_reporters(countries, k_anon, code, id),
{
}

/// Nothing a region is told slips past the reporter threshold.
pub proof fn hints_are_k_anonymous(
    out: Seq<HintView>,
    countries: Seq<CountryView>,
    k_anon: nat,
    code: Seq<u8>,
    i: int,
)
    requires
        is_hints(out, countries, k_anon, code),
        0 <= i < out.len(),
    ensures
        has_enough_reporters(countries, k_anon, code, out[i].mask_id),
{
    recommended_is_k_anonymous(countries, k_anon, code, out[i].mask_id);
}

/// A mask that nobody in the country has reported on is still recommended once the rest of
/// the continent has enough reporters of it.
pub proof fn neighbours_can_recommend(
    countries: Seq<CountryView>,
    k_anon: nat,
    code: Seq<u8>,
    id: Seq<char>,
)
    requires
        bucket_at(countries, code, id) is None,
        reported(countries, rollup_of(code), rollup_of(code).len() as int, id),
        estimate_of(
            rolled_up(countries, rollup_of(code), rollup_of(code).len() as int, id).reporters,
        ) >= k_anon,
    ensures
        recommended(countries, k_anon, code, id) is Some,
{
}

/// A score counts a mask's successes and failures as they are, up to four for each reporter.
pub proof fn score_counts_up_to_four_each(success: nat, fail: nat, reporters: nat)
    requires
        success <= u64::MAX,
        fail <= u64::MAX,
        reporters * 4 <= u64::MAX,
    ensures
        success <= reporters * 4 ==> capped(success, fail, reporters).success == success,
        success > reporters * 4 ==> capped(success, fail, reporters).success == reporters * 4,
        fail <= reporters * 4 ==> capped(success, fail, reporters).fail == fail,
        fail > reporters * 4 ==> capped(success, fail, reporters).fail == reporters * 4,
{
}

/// A mask that never worked beats no other, and one that ever worked beats it; of two that
/// worked the one with fewer failures for its successes wins, and nothing beats itself.
pub proof fn better_mask_wins(a: Score, b: Score)
    ensures
        a.success == 0 ==> !beats(a, b),
        a.success > 0 && b.success == 0 ==> beats(a, b),
        a.success > 0 && a.success == b.success ==> (beats(a, b) <==> a.fail < b.fail),
        a.success > b.success && b.success > 0 && a.fail == b.fail && a.fail > 0 ==> beats(a, b),
        a.success > 0 && b.success > 0 ==> (beats(a, b) <==> a.success * b.fail > b.success
            * a.fail),
        !beats(a, a),
        beats(a, b) ==> !beats(b, a),
{
    let s = a.success;
    let x = a.fail;
    let y = b.fail;
    let t = b.success;
    assert(s > 0 ==> (s * y > s * x <==> y > x)) by (nonlinear_arith);
    assert(s > t && x > 0 ==> s * x > t * x) by (nonlinear_arith);
}

/// The counts of a region are the sums of its countries' counts, and its reporters are those of
/// any of them; a country without the mask adds nothing.
pub proof fn region_adds_up_its_countries(
    countries: Seq<CountryView>,
    members: Seq<Seq<u8>>,
    n: int,
    id: Seq<char>,
)
    requires
        0 < n <= members.len(),
    ensures
        ({
            let before = rolled_up(countries, members, n - 1, id);
            let after = rolled_up(countries, members, n, id);
            match bucket_at(countries, members[n - 1], id) {
                None => after == before,
                Some(b) => {
                    &&& before.success + b.success <= u64::MAX ==> after.success == before.success
                        + b.success
                    &&& before.success + b.success > u64::MAX ==> after.success == u64::MAX
                    &&& before.fail + b.fail <= u64::MAX ==> after.fail == before.fail + b.fail
                    &&& before.fail + b.fail > u64::MAX ==> after.fail == u64::MAX
                    &&& after.reporters == union_of(before.reporters, b.reporters)
                },
            }
        }),
        ({
            let nothing = rolled_up(countries, members, 0, id);
            nothing.success == 0 && nothing.fail == 0 && nothing.reporters == blank()
        }),
{
}

/// A mask is recommended on its own country's word where enough reporters there know it, with
/// that country's counts; else on its region's word, where enough know it there; else not at
/// all.
pub proof fn mask_is_recommended_on_enough_words(
    countries: Seq<CountryView>,
    k_anon: nat,
    code: Seq<u8>,
    id: Seq<char>,
)
    ensures
        ({
            let own = bucket_at(countries, code, id);
            let members = rollup_of(code);
            let region = rolled_up(countries, members, members.len() as int, id);
            let known = exists|k: int|
                0 <= k < members.len() && (#[trigger] bucket_at(countries, members[k], id)) is Some;
            let own_enough = own is Some && estimate_of(own->0.reporters) >= k_anon;
            let region_enough = known && estimate_of(region.reporters) >= k_anon;
            let answer = recommended(countries, k_anon, code, id);
            &&& own_enough ==> answer == Some(
                capped(own->0.success, own->0.fail, estimate_of(own->0.reporters)),
            )
            &&& !own_enough && region_enough ==> answer == Some(
                capped(region.success, region.fail, estimate_of(region.reporters)),
            )
            &&& !own_enough && !region_enough ==> answer is None
        }),
{
}

/// A country is told of recommended masks alone, 32 at most, each once and with its own score,
/// best first.
pub proof fn recommended_masks_are_named_best_first(
    out: Seq<HintView>,
    countries: Seq<CountryView>,
    k_anon: nat,
    code: Seq<u8>,
    i: int,
    j: int,
)
    requires
        is_hints(out, countries, k_anon, code),
        0 <= i <= j < out.len(),
    ensures
        out.len() <= 32,
        recommended(countries, k_anon, code, out[i].mask_id) == Some(out[i].score),
        i < j ==> out[i].mask_id != out[j].mask_id,
        i < j ==> !beats(out[j].score, out[i].score),
{
}

/// A recommended mask is left out only where 32 others are named, the last of which it does not
/// beat; fewer than 32 names are all that there are.
pub proof fn nothing_better_is_left_out(
    out: Seq<HintView>,
    countries: Seq<CountryView>,
    k_anon: nat,
    code: Seq<u8>,
    id: Seq<char>,
)
    requires
        is_hints(out, countries, k_anon, code),
        recommended(countries, k_anon, code, id) is Some,
        forall|k: int| 0 <= k < out.len() ==> (#[trigger] out[k]).mask_id != id,
    ensures
        out.len() == 32,
        !beats(recommended(countries, k_anon, code, id)->0, out[31].score),
{
    assert(Set::<Seq<char>>::full().contains(id));
    assert(!mentions(out, id));
}

} // verus!
