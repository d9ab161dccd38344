//! What the server does every few seconds, whatever its clients do.

use crate::ingress::{client_may_connect, may_connect};
use crate::text::{has_prefix, same_but_for_case, same_text, same_text_but_for_case, starts_with};
use crate::throttle::{
    within, CounterTable, SlotTable, COOLDOWN_RETENTION, MASK_FEEDBACK_THROTTLE,
    MASK_PREFERENCE_THROTTLE, RATE_LIMIT_RETENTION,
};
use vstd::prelude::*;

verus! {

/// Every so many ticks, sessions with old keys are given new ones.
pub const REKEY_EVERY: u32 = 15;

/// What is known of the client behind a session.
#[derive(Clone, Copy, PartialEq, Eq, Structural)]
pub enum ClientStanding {
    /// The session belongs to no registered client.
    Anonymous,
    /// The client is no longer registered.
    Unknown,
    /// The client is registered.
    Known { enabled: bool, expires_at: Option<i64> },
}

/// A session and the standing of its client.
#[derive(Clone, Copy, PartialEq, Eq, Structural)]
pub struct LiveSession {
    pub session_id: u128,
    pub client: ClientStanding,
}

/// A session whose client may not have it any more.
pub open spec fn is_revoked(session: LiveSession, now: i64) -> bool {
    match session.client {
        ClientStanding::Anonymous => false,
        ClientStanding::Unknown => true,
        ClientStanding::Known { enabled, expires_at } => !may_connect(enabled, expires_at, now),
    }
}

/// The ids of the sessions whose clients may not have them any more, in their order.
pub open spec fn revoked_ids(sessions: Seq<LiveSession>, now: i64) -> Seq<u128>
    decreases sessions.len(),
{
    if sessions.len() == 0 {
        seq![]
    } else {
        let before = revoked_ids(sessions.drop_last(), now);
        if is_revoked(sessions.last(), now) {
            before.push(sessions.last().session_id)
        } else {
            before
        }
    }
}

/// The sessions whose clients have been removed, disabled or have expired.
pub fn revoked_sessions(sessions: &Vec<LiveSession>, now: i64) -> (ids: Vec<u128>)
    ensures
        ids@ == revoked_ids(sessions@, now),
{
    let mut ids: Vec<u128> = Vec::new();
    let mut i: usize = 0;
    while i < sessions.len()
        invariant
            i <= sessions.len(),
            ids@ == revoked_ids(sessions@.take(i as int), now),
        decreases sessions.len() - i,
    {
        let session: LiveSession = sessions[i];
        let live: bool = match session.client {
            ClientStanding::Anonymous => true,
            ClientStanding::Unknown => false,
            ClientStanding::Known { enabled, expires_at } => client_may_connect(
                enabled,
                expires_at,
                now,
            ),
        };
        assert(sessions@.take(i + 1).drop_last() =~= sessions@.take(i as int));
        if !live {
            ids.push(session.session_id);
        }
        i += 1;
    }
    assert(sessions@.take(i as int) =~= sessions@);
    ids
}

/// A session is ended exactly where its client may not have it any more.
pub proof fn exactly_the_revoked_are_ended(sessions: Seq<LiveSession>, now: i64, id: u128)
    ensures
        revoked_ids(sessions, now).contains(id) <==> exists|i: int|
            0 <= i < sessions.len() && (#[trigger] sessions[i]).session_id == id && is_revoked(
                sessions[i],
                now,
            ),
    decreases sessions.len(),
{
    if sessions.len() > 0 {
        let rest = sessions.drop_last();
        exactly_the_revoked_are_ended(rest, now, id);
        let before = revoked_ids(rest, now);
        let all = revoked_ids(sessions, now);
        if all.contains(id) {
            let k = choose|k: int| 0 <= k < all.len() && all[k] == id;
            if k < before.len() {
                assert(before[k] == id);
                let i = choose|i: int|
                    0 <= i < rest.len() && (#[trigger] rest[i]).session_id == id && is_revoked(
                        rest[i],
                        now,
                    );
                assert(sessions[i] == rest[i]);
            } else {
                assert(sessions[sessions.len() - 1].session_id == id);
            }
        }
        if exists|i: int|
            0 <= i < sessions.len() && (#[trigger] sessions[i]).session_id == id && is_revoked(
                sessions[i],
                now,
            ) {
            let i = choose|i: int|
                0 <= i < sessions.len() && (#[trigger] sessions[i]).session_id == id && is_revoked(
                    sessions[i],
                    now,
                );
            if i < rest.len() {
                assert(rest[i] == sessions[i]);
                let k = choose|k: int| 0 <= k < before.len() && before[k] == id;
                assert(all[k] == id);
            } else {
                assert(all[before.len() as int] == id);
            }
        }
    }
}

/// Forgets what is no longer of use: packet counts, failed handshakes and slots of addresses
/// and sessions that have been idle.
pub fn sweep_tables(
    rate_limits: &mut CounterTable,
    cooldowns: &mut CounterTable,
    preferences: &mut SlotTable,
    feedback: &mut SlotTable,
    now: u64,
)
    ensures
        final(rate_limits)@ == Map::new(
            |key: u128|
                old(rate_limits)@.contains_key(key) && within(
                    old(rate_limits)@[key].1,
                    now,
                    RATE_LIMIT_RETENTION,
                ),
            |key: u128| old(rate_limits)@[key],
        ),
        final(cooldowns)@ == Map::new(
            |key: u128|
                old(cooldowns)@.contains_key(key) && within(
                    old(cooldowns)@[key].1,
                    now,
                    COOLDOWN_RETENTION,
                ),
            |key: u128| old(cooldowns)@[key],
        ),
        final(preferences)@ == Map::new(
            |key: u128|
                old(preferences)@.contains_key(key) && within(
                    old(preferences)@[key],
                    now,
                    MASK_PREFERENCE_THROTTLE,
                ),
            |key: u128| old(preferences)@[key],
        ),
        final(feedback)@ == Map::new(
            |key: u128|
                old(feedback)@.contains_key(key) && within(
                    old(feedback)@[key],
                    now,
                    MASK_FEEDBACK_THROTTLE,
                ),
            |key: u128| old(feedback)@[key],
        ),
{
    rate_limits.forget_idle(now, RATE_LIMIT_RETENTION);
    cooldowns.forget_idle(now, COOLDOWN_RETENTION);
    preferences.forget_free(now, MASK_PREFERENCE_THROTTLE);
    feedback.forget_free(now, MASK_FEEDBACK_THROTTLE);
}

/// A session uses a variant made for it alone.
pub open spec fn uses_variant(mask_id: Option<String>) -> bool {
    mask_id is Some && starts_with(mask_id->0@, "polymorphic:"@)
}

/// How many sessions use a variant made for them alone.
pub fn count_polymorphic(mask_ids: &Vec<Option<String>>) -> (n: usize)
    ensures
        n == mask_ids@.filter(|id: Option<String>| uses_variant(id)).len(),
{
    let ghost is_variant = |id: Option<String>| uses_variant(id);
    let mut n: usize = 0;
    let mut i: usize = 0;
    proof {
        assert(mask_ids@.take(0) =~= seq![]);
        reveal(Seq::filter);
    }
    while i < mask_ids.len()
        invariant
            i <= mask_ids.len(),
            n <= i,
            is_variant == (|id: Option<String>| uses_variant(id)),
            n == mask_ids@.take(i as int).filter(is_variant).len(),
        decreases mask_ids.len() - i,
    {
        proof {
            reveal(Seq::filter);
            assert(mask_ids@.take(i + 1).drop_last() =~= mask_ids@.take(i as int));
        }
        match &mask_ids[i] {
            Some(id) => {
                if has_prefix(id.as_str(), "polymorphic:") {
                    n += 1;
                }
            },
            None => {},
        }
        i += 1;
    }
    assert(mask_ids@.take(i as int) =~= mask_ids@);
    n
}

/// Counts the ticks after which sessions get new keys.
#[derive(Clone, Copy, PartialEq, Eq, Structural)]
pub struct RekeyClock {
    pub tick: u32,
}

impl RekeyClock {
    /// Counts a tick; whether sessions with old keys are due.
    pub fn advance(&mut self) -> (due: bool)
        ensures
            final(self).tick == (if old(self).tick == u32::MAX {
                0
            } else {
                (old(self).tick + 1) as u32
            }),
            due == (final(self).tick % REKEY_EVERY == 0),
    {
        self.tick = self.tick.wrapping_add(1);
        self.tick % REKEY_EVERY == 0
    }
}

/// Whether the kernel is to send packets to clients, as the environment asks for.
pub fn kernel_downlink_enabled(setting: Option<&str>) -> (r: bool)
    ensures
        r == (setting is Some && (setting->0@ == "1"@ || same_but_for_case(
            setting->0@,
            "true"@,
        ))),
{
    match setting {
        Some(v) => same_text(v, "1") || same_text_but_for_case(v, "true"),
        None => false,
    }
}

/// Whether the kernel can be asked to send packets: that is wanted, and the tunnel device is
/// known to it.
pub fn may_arm_kernel(wanted: bool, tun_ifindex: u32) -> (r: bool)
    ensures
        r == (wanted && tun_ifindex != 0),
{
    wanted && tun_ifindex != 0
}

/// Every session of a client that is switched off, expired or gone is among those that are
/// ended; none of a client that is switched on and not expired is, unless another session with
/// its id is, and none that belongs to no client.
pub proof fn sessions_end_with_the_right_to_them(
    sessions: Seq<LiveSession>,
    now: i64,
    i: int,
    expires_at: Option<i64>,
)
    requires
        0 <= i < sessions.len(),
    ensures
        sessions[i].client == (ClientStanding::Known { enabled: false, expires_at })
            ==> revoked_ids(sessions, now).contains(sessions[i].session_id),
        sessions[i].client == ClientStanding::Unknown ==> revoked_ids(sessions, now).contains(
            sessions[i].session_id,
        ),
        sessions[i].client == (ClientStanding::Known { enabled: true, expires_at }) && (expires_at
            matches Some(t) && t <= now) ==> revoked_ids(sessions, now).contains(
            sessions[i].session_id,
        ),
{
    exactly_the_revoked_are_ended(sessions, now, sessions[i].session_id);
}

/// One more session adds its id behind the others exactly where its client is gone, switched
/// off, or past its expiry, and changes nothing else.
pub proof fn last_session_is_judged_on_its_own(sessions: Seq<LiveSession>, s: LiveSession, now: i64)
    ensures
        revoked_ids(seq![], now).len() == 0,
        ({
            let before = revoked_ids(sessions, now);
            let after = revoked_ids(sessions.push(s), now);
            let kept = match s.client {
                ClientStanding::Anonymous => true,
                ClientStanding::Unknown => false,
                ClientStanding::Known { enabled: false, expires_at: _ } => false,
                ClientStanding::Known { enabled: true, expires_at: None } => true,
                ClientStanding::Known { enabled: true, expires_at: Some(t) } => now < t,
            };
            &&& kept ==> after == before
            &&& !kept ==> after == before.push(s.session_id)
        }),
{
    assert(sessions.push(s).drop_last() =~= sessions);
}

/// A mask is a variant made for one session alone exactly where its id says so in front.
pub proof fn variants_are_told_by_their_ids(id: String)
    ensures
        !uses_variant(None),
        uses_variant(Some(id)) <==> id@.len() >= 12 && id@.take(12) == "polymorphic:"@,
{
    reveal_strlit("polymorphic:");
}

/// Sessions with old keys are due once in every fifteen ticks: of fifteen ticks that follow each
/// other, one is due and no other is.
pub proof fn one_tick_in_fifteen_is_due(tick: nat, other: nat) -> (due: nat)
    ensures
        tick <= due < tick + 15,
        due % (REKEY_EVERY as nat) == 0,
        tick <= other < tick + 15 && other % (REKEY_EVERY as nat) == 0 ==> other == due,
{
    let past = tick % 15;
    if past == 0 {
        tick
    } else {
        (tick + (15 - past)) as nat
    }
}

} // verus!
