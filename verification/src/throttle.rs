//! Throttles, budgets and cooldowns. All times are nanoseconds on one monotonic clock.

use crate::outside_maps::{
    get_counter, get_slot, held_counters, held_slots, insert_counter, insert_slot, new_counters,
    new_slots, remove_counter, retain_counters, retain_slots,
};
use dashmap::DashMap;
use vstd::prelude::*;

verus! {

/// One second.
pub const SECOND: u64 = 1_000_000_000;

/// One millisecond.
pub const MILLISECOND: u64 = 1_000_000;

/// A session's mask preference is acted on at most once in this time.
pub const MASK_PREFERENCE_THROTTLE: u64 = 2_000_000_000;

/// A session's mask feedback is answered at most once in this time.
pub const MASK_FEEDBACK_THROTTLE: u64 = 5_000_000_000;

/// Most scans for a session by its tag, per second.
pub const MAX_FALLBACK_SCANS_PER_SEC: u64 = 20;

/// Most scans for a client that a handshake may come from, per second.
pub const MAX_HANDSHAKE_SCANS_PER_SEC: u64 = 100;

/// Most DNS queries answered for one address, per second.
pub const MAX_DNS_RPS: u64 = 100;

/// How long an idle address keeps its packet counter.
pub const RATE_LIMIT_RETENTION: u64 = 30_000_000_000;

/// How long an address keeps its record of failed handshakes.
pub const COOLDOWN_RETENTION: u64 = 60_000_000_000;

/// The time gone by between `last` and `now`; none where `now` is not later.
pub open spec fn elapsed(last: u64, now: u64) -> int {
    if now > last {
        now - last
    } else {
        0
    }
}

/// Less than `window` has gone by between `last` and `now`.
pub open spec fn within(last: u64, now: u64, window: u64) -> bool {
    elapsed(last, now) < window
}

/// Whether something last done at a given time is too recent to be done again.
pub fn throttled(last_processed: Option<u64>, now: u64, window: u64) -> (r: bool)
    ensures
        r == (last_processed is Some && within(last_processed->0, now, window)),
{
    match last_processed {
        Some(last) => now.saturating_sub(last) < window,
        None => false,
    }
}

/// Whether a session's mask preference was acted on too recently.
pub fn mask_preference_throttled(last_processed: Option<u64>, now: u64) -> (r: bool)
    ensures
        r == (last_processed is Some && within(
            last_processed->0,
            now,
            MASK_PREFERENCE_THROTTLE,
        )),
{
    throttled(last_processed, now, MASK_PREFERENCE_THROTTLE)
}

/// Whether a session's mask feedback was answered too recently.
pub fn mask_feedback_throttled(last_processed: Option<u64>, now: u64) -> (r: bool)
    ensures
        r == (last_processed is Some && within(last_processed->0, now, MASK_FEEDBACK_THROTTLE)),
{
    throttled(last_processed, now, MASK_FEEDBACK_THROTTLE)
}

/// A slot claimed at `at` is still held at `now`.
pub fn still_held(at: u64, now: u64, window: u64) -> (r: bool)
    ensures
        r == within(at, now, window),
{
    now.saturating_sub(at) < window
}

/// A counter started at its second component still counts at `now`.
pub fn still_counts(counter: (u64, u64), now: u64, window: u64) -> (r: bool)
    ensures
        r == within(counter.1, now, window),
{
    still_held(counter.1, now, window)
}

/// The slots after a claim: taken at `now` where it was free, else as they were.
pub open spec fn claimed(slots: Map<u128, u64>, key: u128, now: u64, window: u64) -> Map<u128, u64> {
    if is_free(slots, key, now, window) {
        slots.insert(key, now)
    } else {
        slots
    }
}

/// Nobody holds the slot.
pub open spec fn is_free(slots: Map<u128, u64>, key: u128, now: u64, window: u64) -> bool {
    !(slots.contains_key(key) && within(slots[key], now, window))
}

/// When each session last claimed its turn.
pub struct SlotTable {
    slots: DashMap<u128, u64>,
}

impl View for SlotTable {
    type V = Map<u128, u64>;

    closed spec fn view(&self) -> Map<u128, u64> {
        held_slots(self.slots)
    }
}

impl SlotTable {
    /// A table in which every slot is free.
    pub fn new() -> (table: SlotTable)
        ensures
            table@ == Map::<u128, u64>::empty(),
    {
        SlotTable { slots: new_slots() }
    }

    /// Claims a session's slot for `window`. Looking and claiming are one step, so of two
    /// claims within the window only the first succeeds.
    pub fn try_claim_slot(&mut self, session_id: u128, now: u64, window: u64) -> (granted: bool)
        ensures
            granted == is_free(old(self)@, session_id, now, window),
            final(self)@ == claimed(old(self)@, session_id, now, window),
    {
        let last: Option<u64> = get_slot(&self.slots, session_id);
        if throttled(last, now, window) {
            false
        } else {
            insert_slot(&mut self.slots, session_id, now);
            true
        }
    }

    /// Claims a session's turn to have its mask preference acted on.
    pub fn try_claim_mask_preference_slot(&mut self, session_id: u128, now: u64) -> (granted: bool)
        ensures
            granted == is_free(old(self)@, session_id, now, MASK_PREFERENCE_THROTTLE),
            final(self)@ == claimed(old(self)@, session_id, now, MASK_PREFERENCE_THROTTLE),
    {
        self.try_claim_slot(session_id, now, MASK_PREFERENCE_THROTTLE)
    }

    /// Claims a session's turn to have its mask feedback answered.
    pub fn try_claim_mask_feedback_slot(&mut self, session_id: u128, now: u64) -> (granted: bool)
        ensures
            granted == is_free(old(self)@, session_id, now, MASK_FEEDBACK_THROTTLE),
            final(self)@ == claimed(old(self)@, session_id, now, MASK_FEEDBACK_THROTTLE),
    {
        self.try_claim_slot(session_id, now, MASK_FEEDBACK_THROTTLE)
    }

    /// Forgets the slots that nobody holds any more.
    pub fn forget_free(&mut self, now: u64, window: u64)
        ensures
            final(self)@ == Map::new(
                |key: u128| old(self)@.contains_key(key) && within(old(self)@[key], now, window),
                |key: u128| old(self)@[key],
            ),
    {
        retain_slots(&mut self.slots, now, window);
        assert(self@ =~= Map::new(
            |key: u128| old(self)@.contains_key(key) && within(old(self)@[key], now, window),
            |key: u128| old(self)@[key],
        ));
    }
}

/// A second claim within the window fails, and leaves the slot as the first one took it.
pub proof fn second_claim_fails(
    slots: Map<u128, u64>,
    key: u128,
    first: u64,
    second: u64,
    window: u64,
)
    requires
        is_free(slots, key, first, window),
        within(first, second, window),
    ensures
        !is_free(claimed(slots, key, first, window), key, second, window),
        claimed(claimed(slots, key, first, window), key, second, window) == claimed(
            slots,
            key,
            first,
            window,
        ),
{
}

/// Once the window has passed the slot can be claimed again.
pub proof fn claim_succeeds_after_window(
    slots: Map<u128, u64>,
    key: u128,
    first: u64,
    second: u64,
    window: u64,
)
    requires
        is_free(slots, key, first, window),
        second >= first + window,
    ensures
        is_free(claimed(slots, key, first, window), key, second, window),
{
}

/// A claim for one session neither takes nor frees another's slot.
pub proof fn claims_are_independent(
    slots: Map<u128, u64>,
    key: u128,
    other: u128,
    now: u64,
    later: u64,
    window: u64,
)
    requires
        key != other,
    ensures
        is_free(claimed(slots, key, now, window), other, later, window) == is_free(
            slots,
            other,
            later,
            window,
        ),
{
}

/// Forgetting free slots changes no later claim.
pub proof fn forgetting_changes_no_claim(
    slots: Map<u128, u64>,
    key: u128,
    now: u64,
    later: u64,
    window: u64,
)
    requires
        now <= later,
    ensures
        ({
            let left = Map::new(
                |k: u128| slots.contains_key(k) && within(slots[k], now, window),
                |k: u128| slots[k],
            );
            is_free(left, key, later, window) == is_free(slots, key, later, window)
        }),
{
}

/// A count of what was done in the current window, and when the window began.
#[derive(Clone, Copy, PartialEq, Eq, Structural)]
pub struct ScanBudget {
    pub count: u64,
    pub since: u64,
}

/// One more, but never past the width of the counter.
pub open spec fn counted_up(n: u64) -> u64 {
    if n < u64::MAX {
        (n + 1) as u64
    } else {
        n
    }
}

/// The budget after one more request: a window lasts until more than a second has passed.
pub open spec fn charged(b: ScanBudget, now: u64) -> ScanBudget {
    if now > b.since + SECOND {
        ScanBudget { count: 1, since: now }
    } else {
        ScanBudget { count: counted_up(b.count), since: b.since }
    }
}

impl ScanBudget {
    /// A budget whose first window begins at `now`.
    pub fn new(now: u64) -> (b: ScanBudget)
        ensures
            b == (ScanBudget { count: 0, since: now }),
    {
        ScanBudget { count: 0, since: now }
    }

    /// Charges one request and tells whether it is within the cap.
    pub fn charge(&mut self, now: u64, cap: u64) -> (allowed: bool)
        ensures
            *final(self) == charged(*old(self), now),
            allowed == (charged(*old(self), now).count <= cap),
    {
        if now.saturating_sub(self.since) > SECOND {
            self.count = 0;
            self.since = now;
        }
        self.count = self.count.saturating_add(1);
        self.count <= cap
    }

    /// Charges one scan for a session by its tag.
    pub fn fallback_scan_allowed(&mut self, now: u64) -> (allowed: bool)
        ensures
            *final(self) == charged(*old(self), now),
            allowed == (charged(*old(self), now).count <= MAX_FALLBACK_SCANS_PER_SEC),
    {
        self.charge(now, MAX_FALLBACK_SCANS_PER_SEC)
    }

    /// Charges one scan for the client that a handshake comes from.
    pub fn handshake_scan_allowed(&mut self, now: u64) -> (allowed: bool)
        ensures
            *final(self) == charged(*old(self), now),
            allowed == (charged(*old(self), now).count <= MAX_HANDSHAKE_SCANS_PER_SEC),
    {
        self.charge(now, MAX_HANDSHAKE_SCANS_PER_SEC)
    }
}

/// How many of the requests at the given times are within the cap.
pub open spec fn grants(b: ScanBudget, times: Seq<u64>, cap: u64) -> nat
    decreases times.len(),
{
    if times.len() == 0 {
        0
    } else {
        let next = charged(b, times[0]);
        grants(next, times.drop_first(), cap) + (if next.count <= cap {
            1nat
        } else {
            0nat
        })
    }
}

/// Within one window no more than the cap is granted, however many requests come.
pub proof fn window_grants_at_most_cap(b: ScanBudget, times: Seq<u64>, cap: u64)
    requires
        cap < u64::MAX,
        forall|i: int| 0 <= i < times.len() ==> #[trigger] times[i] <= b.since + SECOND,
    ensures
        grants(b, times, cap) + b.count <= cap || grants(b, times, cap) == 0,
    decreases times.len(),
{
    if times.len() > 0 {
        let next = charged(b, times[0]);
        let rest = times.drop_first();
        assert(next.since == b.since);
        assert forall|i: int| 0 <= i < rest.len() implies #[trigger] rest[i] <= next.since
            + SECOND by {
            assert(rest[i] == times[i + 1]);
        }
        window_grants_at_most_cap(next, rest, cap);
    }
}

/// Per-address counters, by address as a number.
pub struct CounterTable {
    counters: DashMap<u128, (u64, u64)>,
}

impl View for CounterTable {
    type V = Map<u128, (u64, u64)>;

    closed spec fn view(&self) -> Map<u128, (u64, u64)> {
        held_counters(self.counters)
    }
}

/// An address's budget as its counter stands; a new one where it has none.
pub open spec fn budget_of(counters: Map<u128, (u64, u64)>, key: u128, now: u64) -> ScanBudget {
    if counters.contains_key(key) {
        ScanBudget { count: counters[key].0, since: counters[key].1 }
    } else {
        ScanBudget { count: 0, since: now }
    }
}

/// An address's budget after one more DNS query: a window lasts one second, and a query over
/// the limit is not counted.
pub open spec fn dns_charged(b: ScanBudget, now: u64) -> ScanBudget {
    let b1 = if now >= b.since + SECOND {
        ScanBudget { count: 0, since: now }
    } else {
        b
    };
    if b1.count >= MAX_DNS_RPS {
        b1
    } else {
        ScanBudget { count: (b1.count + 1) as u64, since: b1.since }
    }
}

/// Whether a DNS query is within the limit.
pub open spec fn dns_allowed(b: ScanBudget, now: u64) -> bool {
    now >= b.since + SECOND || b.count < MAX_DNS_RPS
}

/// How long, in nanoseconds, an address must wait after so many failed handshakes.
pub open spec fn cooldown_of(failures: u64) -> int {
    if failures == 0 {
        2000 * MILLISECOND
    } else if failures == 1 {
        4000 * MILLISECOND
    } else if failures == 2 {
        8000 * MILLISECOND
    } else {
        16000 * MILLISECOND
    }
}

/// An address whose last handshake failed is still waiting.
pub open spec fn cooling_down(counters: Map<u128, (u64, u64)>, key: u128, now: u64) -> bool {
    counters.contains_key(key) && now < counters[key].1 + cooldown_of(counters[key].0)
}

/// How long an address must wait after so many failed handshakes: two seconds, doubled for
/// each failure up to the third.
pub fn handshake_cooldown(failures: u64) -> (wait: u64)
    ensures
        wait == cooldown_of(failures),
{
    if failures == 0 {
        2000 * MILLISECOND
    } else if failures == 1 {
        4000 * MILLISECOND
    } else if failures == 2 {
        8000 * MILLISECOND
    } else {
        16000 * MILLISECOND
    }
}

impl CounterTable {
    /// A table without counters.
    pub fn new() -> (table: CounterTable)
        ensures
            table@ == Map::<u128, (u64, u64)>::empty(),
    {
        CounterTable { counters: new_counters() }
    }

    fn budget(&self, key: u128, now: u64) -> (b: ScanBudget)
        ensures
            b == budget_of(self@, key, now),
    {
        match get_counter(&self.counters, key) {
            Some(c) => ScanBudget { count: c.0, since: c.1 },
            None => ScanBudget::new(now),
        }
    }

    /// Counts a packet from an address and tells whether it is within the limit.
    pub fn packet_allowed(&mut self, key: u128, now: u64, limit: u64) -> (allowed: bool)
        ensures
            ({
                let after = charged(budget_of(old(self)@, key, now), now);
                &&& allowed == (after.count <= limit)
                &&& final(self)@ == old(self)@.insert(key, (after.count, after.since))
            }),
    {
        let mut b: ScanBudget = self.budget(key, now);
        let allowed: bool = b.charge(now, limit);
        insert_counter(&mut self.counters, key, (b.count, b.since));
        allowed
    }

    /// Counts a DNS query from an address and tells whether it is within the limit.
    pub fn query_allowed(&mut self, key: u128, now: u64) -> (allowed: bool)
        ensures
            ({
                let before = budget_of(old(self)@, key, now);
                let after = dns_charged(before, now);
                &&& allowed == dns_allowed(before, now)
                &&& final(self)@ == old(self)@.insert(key, (after.count, after.since))
            }),
    {
        let mut b: ScanBudget = self.budget(key, now);
        if now >= b.since && now - b.since >= SECOND {
            b.count = 0;
            b.since = now;
        }
        let allowed: bool = b.count < MAX_DNS_RPS;
        if allowed {
            b.count = b.count + 1;
        }
        insert_counter(&mut self.counters, key, (b.count, b.since));
        allowed
    }

    /// Whether an address is still waiting after failed handshakes.
    pub fn is_cooling_down(&self, key: u128, now: u64) -> (r: bool)
        ensures
            r == cooling_down(self@, key, now),
    {
        match get_counter(&self.counters, key) {
            Some(c) => {
                let wait: u64 = handshake_cooldown(c.0);
                now.saturating_sub(c.1) < wait
            },
            None => false,
        }
    }

    /// Notes a failed handshake from an address.
    pub fn note_failure(&mut self, key: u128, now: u64)
        ensures
            final(self)@ == old(self)@.insert(
                key,
                (
                    counted_up(
                        if old(self)@.contains_key(key) {
                            old(self)@[key].0
                        } else {
                            0
                        },
                    ),
                    now,
                ),
            ),
    {
        let failures: u64 = match get_counter(&self.counters, key) {
            Some(c) => c.0,
            None => 0,
        };
        insert_counter(&mut self.counters, key, (failures.saturating_add(1), now));
    }

    /// Forgets an address.
    pub fn clear(&mut self, key: u128)
        ensures
            final(self)@ == old(self)@.remove(key),
    {
        remove_counter(&mut self.counters, key);
    }

    /// Forgets the addresses whose counter was started at least `window` ago.
    pub fn forget_idle(&mut self, now: u64, window: u64)
        ensures
            final(self)@ == Map::new(
                |key: u128| old(self)@.contains_key(key) && within(old(self)@[key].1, now, window),
                |key: u128| old(self)@[key],
            ),
    {
        retain_counters(&mut self.counters, now, window);
        assert(self@ =~= Map::new(
            |key: u128| old(self)@.contains_key(key) && within(old(self)@[key].1, now, window),
            |key: u128| old(self)@[key],
        ));
    }
}

/// Traffic from one address never uses up another's allowance.
pub proof fn addresses_do_not_share_counters(
    counters: Map<u128, (u64, u64)>,
    key: u128,
    other: u128,
    entry: (u64, u64),
    now: u64,
)
    requires
        key != other,
    ensures
        budget_of(counters.insert(key, entry), other, now) == budget_of(counters, other, now),
        cooling_down(counters.insert(key, entry), other, now) == cooling_down(
            counters,
            other,
            now,
        ),
{
}

/// A record of failed handshakes is kept longer than the longest wait, so forgetting idle
/// addresses never ends a wait early.
pub proof fn forgetting_ends_no_cooldown(counters: Map<u128, (u64, u64)>, key: u128, now: u64)
    requires
        cooling_down(counters, key, now),
    ensures
        within(counters[key].1, now, COOLDOWN_RETENTION),
{
}

/// A window is open from its beginning until just before its length has passed; a clock that has
/// stepped back leaves it open.
pub proof fn window_closes_after_its_length(last: u64, now: u64, window: u64)
    requires
        window > 0,
    ensures
        within(last, now, window) <==> now < last + window,
        now <= last ==> elapsed(last, now) == 0,
        now > last ==> elapsed(last, now) == now - last,
{
}

/// A slot is free exactly where it was never claimed or its window has closed. Claiming a free
/// one holds it from that moment; claiming one that is held changes nothing; other slots stay as
/// they are in either case.
pub proof fn slot_is_held_from_its_claim(
    slots: Map<u128, u64>,
    key: u128,
    other: u128,
    now: u64,
    window: u64,
)
    requires
        window > 0,
        other != key,
    ensures
        is_free(slots, key, now, window) <==> !slots.contains_key(key) || now >= slots[key]
            + window,
        ({
            let after = claimed(slots, key, now, window);
            &&& !slots.contains_key(key) || now >= slots[key] + window ==> after.contains_key(key)
                && after[key] == now
            &&& slots.contains_key(key) && now < slots[key] + window ==> after == slots
            &&& after.contains_key(other) == slots.contains_key(other)
            &&& slots.contains_key(other) ==> after[other] == slots[other]
        }),
{
}

/// Scans are counted one by one within a second of the first, and from one again once that
/// second is over; the time of the first stays until then.
pub proof fn scans_are_counted_by_the_second(b: ScanBudget, now: u64)
    ensures
        now > b.since + 1_000_000_000 ==> charged(b, now).count == 1 && charged(b, now).since
            == now,
        now <= b.since + 1_000_000_000 ==> charged(b, now).since == b.since,
        now <= b.since + 1_000_000_000 && b.count < u64::MAX ==> charged(b, now).count == b.count
            + 1,
        now <= b.since + 1_000_000_000 && b.count == u64::MAX ==> charged(b, now).count
            == u64::MAX,
{
}

/// A count goes up by one, and stays where it cannot.
pub proof fn count_goes_up_by_one(n: u64)
    ensures
        n < u64::MAX ==> counted_up(n) == n + 1,
        n == u64::MAX ==> counted_up(n) == n,
{
}

/// An address that is not counted yet starts at nothing, now; one that is goes on from its count.
pub proof fn address_goes_on_from_its_count(counters: Map<u128, (u64, u64)>, key: u128, now: u64)
    ensures
        !counters.contains_key(key) ==> budget_of(counters, key, now).count == 0 && budget_of(
            counters,
            key,
            now,
        ).since == now,
        counters.contains_key(key) ==> budget_of(counters, key, now).count == counters[key].0
            && budget_of(counters, key, now).since == counters[key].1,
{
}

/// A hundred name queries are answered in each second that begins with one, and not one more;
/// those that are not answered are not counted.
pub proof fn queries_are_rationed(b: ScanBudget, now: u64)
    ensures
        now >= b.since + 1_000_000_000 ==> dns_allowed(b, now) && dns_charged(b, now) == (
        ScanBudget { count: 1, since: now }),
        now < b.since + 1_000_000_000 && b.count < 100 ==> dns_allowed(b, now) && dns_charged(
            b,
            now,
        ).count == b.count + 1 && dns_charged(b, now).since == b.since,
        now < b.since + 1_000_000_000 && b.count >= 100 ==> !dns_allowed(b, now) && dns_charged(
            b,
            now,
        ) == b,
{
}

/// An address waits two seconds to begin with, twice as long after each failure, and sixteen
/// seconds at most; it waits exactly so long from its last failure.
pub proof fn wait_doubles_with_each_failure(
    counters: Map<u128, (u64, u64)>,
    key: u128,
    failures: u64,
    now: u64,
)
    ensures
        cooldown_of(0) == 2_000_000_000,
        failures < 3 ==> cooldown_of((failures + 1) as u64) == 2 * cooldown_of(failures),
        failures >= 3 ==> cooldown_of(failures) == 16_000_000_000,
        !counters.contains_key(key) ==> !cooling_down(counters, key, now),
        counters.contains_key(key) ==> (cooling_down(counters, key, now) <==> now
            < counters[key].1 + cooldown_of(counters[key].0)),
{
}

/// A session may ask for another mask every two seconds and is answered on a report every five;
/// an address's packet count is kept for half a minute, and its failures for a whole one, longer
/// than any wait that they call for.
pub proof fn windows_outlast_what_they_guard(failures: u64)
    ensures
        MASK_PREFERENCE_THROTTLE == 2 * SECOND,
        MASK_FEEDBACK_THROTTLE == 5 * SECOND,
        RATE_LIMIT_RETENTION == 30 * SECOND,
        COOLDOWN_RETENTION == 60 * SECOND,
        SECOND == 1_000_000_000 && SECOND == 1000 * MILLISECOND,
        cooldown_of(failures) < COOLDOWN_RETENTION,
{
}

} // verus!
