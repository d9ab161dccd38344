//! Decisions about a packet from the network: whether to take it up, where its payload lies,
//! and what is counted once it has been opened.

use crate::layout::{
    front_len, handshake_header_len, packet_header_len, packet_layout_for_mask, tag_bytes,
    tag_prefix_len, tag_byte_offset, tag_start, MaskProfile, MaskView, TAG_IN_FRONT, TAG_SIZE,
};
use crate::throttle::{
    charged, cooling_down, counted_up, CounterTable, ScanBudget, MAX_HANDSHAKE_SCANS_PER_SEC,
};
use vstd::prelude::*;

verus! {

/// Shortest packet that is looked at.
pub const MIN_PACKET_LEN: usize = 10;

/// Most sessions at one time.
pub const MAX_SESSIONS: usize = 500;

/// Room below [`MAX_SESSIONS`] at which handshakes are no longer taken up.
pub const SESSION_HEADROOM: usize = 10;

/// Length of a handshake key.
pub const EPH_PUB_LEN: usize = 32;

/// Length of the authentication tag that follows an encrypted payload.
pub const POLY1305_TAG_SIZE: usize = 16;

/// Length of a nonce.
pub const NONCE_SIZE: usize = 12;

/// How far the counter may run ahead of the tag window before the window moves.
pub const TAG_REFRESH_STRIDE: u64 = 128;

/// Pending bytes at which uplink accounting is written out.
pub const UPLINK_FLUSH_BYTES: u64 = 16384;

/// Pending bytes at which downlink accounting is written out.
pub const DOWNLINK_FLUSH_BYTES: u64 = 65536;

/// Bytes that a downlink packet is taken to need beyond its payload.
pub const DOWNLINK_OVERHEAD_ESTIMATE: u64 = 64;

/// Why a packet is refused.
#[derive(Clone, Copy, PartialEq, Eq, Structural)]
pub enum PacketError {
    TooShort,
    InvalidTag,
    CooldownActive,
    ScanBudgetExhausted,
    NoClientMatches,
    NoMaskMatches,
    TagMismatch,
    RatchetedKeysMissing,
    InvalidLength,
    PayloadTooShort,
    InvalidPadding,
    InnerTooShort,
}

impl PacketError {
    /// The text of the error.
    pub open spec fn text(self) -> Seq<char> {
        match self {
            PacketError::TooShort => "Too short"@,
            PacketError::InvalidTag => "Invalid tag"@,
            PacketError::CooldownActive => "Handshake cooldown active"@,
            PacketError::ScanBudgetExhausted => "Handshake scan budget exhausted"@,
            PacketError::NoClientMatches => "No registered client matches this handshake"@,
            PacketError::NoMaskMatches => "No bootstrap mask matched this handshake"@,
            PacketError::TagMismatch => "Tag mismatch on new session"@,
            PacketError::RatchetedKeysMissing => "Ratcheted keys missing"@,
            PacketError::InvalidLength => "Invalid length"@,
            PacketError::PayloadTooShort => "Decrypted payload too short"@,
            PacketError::InvalidPadding => "Invalid padding length"@,
            PacketError::InnerTooShort => "Inner payload too short"@,
        }
    }

    /// The text of the error.
    pub fn message(&self) -> (text: &'static str)
        ensures
            text@ == self.text(),
    {
        match self {
            PacketError::TooShort => "Too short",
            PacketError::InvalidTag => "Invalid tag",
            PacketError::CooldownActive => "Handshake cooldown active",
            PacketError::ScanBudgetExhausted => "Handshake scan budget exhausted",
            PacketError::NoClientMatches => "No registered client matches this handshake",
            PacketError::NoMaskMatches => "No bootstrap mask matched this handshake",
            PacketError::TagMismatch => "Tag mismatch on new session",
            PacketError::RatchetedKeysMissing => "Ratcheted keys missing",
            PacketError::InvalidLength => "Invalid length",
            PacketError::PayloadTooShort => "Decrypted payload too short",
            PacketError::InvalidPadding => "Invalid padding length",
            PacketError::InnerTooShort => "Inner payload too short",
        }
    }
}

/// Whether a packet is long enough to be looked at.
pub fn check_packet_length(len: usize) -> (r: Result<(), PacketError>)
    ensures
        r == (if len < MIN_PACKET_LEN {
            Err::<(), PacketError>(PacketError::TooShort)
        } else {
            Ok(())
        }),
{
    if len < MIN_PACKET_LEN {
        Err(PacketError::TooShort)
    } else {
        Ok(())
    }
}

/// What to do with a packet that belongs to no session.
#[derive(Clone, Copy, PartialEq, Eq, Structural)]
pub enum Admission {
    /// Try it as a handshake.
    Proceed,
    /// Leave it without an answer.
    Ignore,
    /// Refuse it.
    Refuse(PacketError),
}

/// Whether a handshake is taken up. Another one from the same address in progress, or a full
/// session table, has it ignored; a waiting address or an exhausted budget has it refused.
pub open spec fn admitted(
    in_progress: bool,
    session_count: usize,
    cooling: bool,
    budget: ScanBudget,
    now: u64,
) -> Admission {
    if in_progress || session_count + SESSION_HEADROOM >= MAX_SESSIONS {
        Admission::Ignore
    } else if cooling {
        Admission::Refuse(PacketError::CooldownActive)
    } else if charged(budget, now).count > MAX_HANDSHAKE_SCANS_PER_SEC {
        Admission::Refuse(PacketError::ScanBudgetExhausted)
    } else {
        Admission::Proceed
    }
}

/// Decides whether a handshake is taken up. Only a handshake that gets as far as the scan
/// budget is charged to it.
pub fn admit_handshake(
    in_progress: bool,
    session_count: usize,
    cooldowns: &CounterTable,
    address: u128,
    budget: &mut ScanBudget,
    now: u64,
) -> (admission: Admission)
    ensures
        admission == admitted(
            in_progress,
            session_count,
            cooling_down(cooldowns@, address, now),
            *old(budget),
            now,
        ),
        *final(budget) == (if admission == Admission::Ignore || admission == Admission::Refuse(
            PacketError::CooldownActive,
        ) {
            *old(budget)
        } else {
            charged(*old(budget), now)
        }),
{
    if in_progress || session_count >= MAX_SESSIONS - SESSION_HEADROOM {
        return Admission::Ignore;
    }
    if cooldowns.is_cooling_down(address, now) {
        return Admission::Refuse(PacketError::CooldownActive);
    }
    if !budget.handshake_scan_allowed(now) {
        return Admission::Refuse(PacketError::ScanBudgetExhausted);
    }
    Admission::Proceed
}

/// A registered client may have a session: it is enabled and has not expired.
pub open spec fn may_connect(enabled: bool, expires_at: Option<i64>, now: i64) -> bool {
    enabled && (expires_at is None || expires_at->0 > now)
}

/// Whether a registered client may have a session. Both times are counted in one unit from one
/// moment.
pub fn client_may_connect(enabled: bool, expires_at: Option<i64>, now: i64) -> (r: bool)
    ensures
        r == may_connect(enabled, expires_at, now),
        r ==> enabled,
        r && expires_at is Some ==> now < expires_at->0,
        enabled && expires_at is None ==> r,
        enabled && expires_at is Some && now < expires_at->0 ==> r,
{
    enabled && match expires_at {
        Some(t) => t > now,
        None => true,
    }
}

/// The tag and the key that a packet would carry if it were a handshake under some mask.
pub struct HandshakeCandidate {
    pub tag: [u8; 8],
    pub eph_pub: [u8; 32],
}

/// Whether a packet is long enough to be a handshake under a mask.
pub open spec fn may_be_handshake(len: nat, mask: MaskView) -> bool {
    &&& front_len(mask.tag_offset) + handshake_header_len(mask) <= len
    &&& front_len(mask.tag_offset) + mask.eph_pub_offset + mask.eph_pub_length <= len
    &&& tag_start(mask.tag_offset) + TAG_SIZE <= len
}

/// The tag and the key that a packet carries as a handshake under a mask; `None` where it is
/// too short for one.
pub open spec fn candidate_of(packet: Seq<u8>, mask: MaskView) -> Option<(Seq<u8>, Seq<u8>)> {
    if may_be_handshake(packet.len(), mask) {
        let tag_from = tag_start(mask.tag_offset) as int;
        let key_from = front_len(mask.tag_offset) + mask.eph_pub_offset;
        Some(
            (
                packet.subrange(tag_from, tag_from + TAG_SIZE),
                packet.subrange(key_from, key_from + EPH_PUB_LEN),
            ),
        )
    } else {
        None
    }
}

/// Reads a packet as a handshake under a mask. `None` where it is too short for one.
pub fn handshake_candidate(packet: &[u8], mask: &MaskProfile) -> (candidate: Option<
    HandshakeCandidate,
>)
    requires
        mask.eph_pub_length == EPH_PUB_LEN,
    ensures
        match candidate {
            Some(c) => candidate_of(packet@, mask@) == Some((c.tag@, c.eph_pub@)),
            None => candidate_of(packet@, mask@) is None,
        },
{
    let layout: (usize, usize, usize, usize) = packet_layout_for_mask(mask);
    let prefix: usize = tag_prefix_len(mask.tag_offset);
    if packet.len() < prefix || packet.len() - prefix < layout.1 {
        return None;
    }
    let eph_start: usize = prefix + layout.2;
    if packet.len() < eph_start + EPH_PUB_LEN {
        return None;
    }
    let tag: [u8; 8] = match tag_bytes(packet, tag_byte_offset(mask.tag_offset)) {
        Some(tag) => tag,
        None => {
            return None;
        },
    };
    let mut eph_pub: [u8; 32] = [0u8; 32];
    let mut i: usize = 0;
    while i < 32
        invariant
            i <= 32,
            eph_start + 32 <= packet.len(),
            forall|k: int| 0 <= k < i ==> eph_pub@[k] == packet@[eph_start + k],
        decreases 32 - i,
    {
        eph_pub[i] = packet[eph_start + i];
        i += 1;
    }
    assert(eph_pub@ =~= packet@.subrange(eph_start as int, eph_start + 32));
    Some(HandshakeCandidate { tag, eph_pub })
}

/// How far one candidate got.
#[derive(Clone, Copy, PartialEq, Eq, Structural)]
pub enum CandidateOutcome {
    /// The tag cannot be right for the key.
    PrecheckFailed,
    /// No session could be created.
    CreateFailed,
    /// A session was created, and did or did not accept the tag.
    Created { validated: bool },
}

/// What to do after a candidate.
#[derive(Clone, Copy, PartialEq, Eq, Structural)]
pub enum CandidateAction {
    /// Try the next one.
    Next,
    /// Take the session back and try the next one.
    RollBack,
    /// Keep the session.
    Accept,
    /// Give up with the error of the failed creation.
    Fail,
}

/// What to do after a candidate. With registered clients, a session that cannot be created
/// is passed over; without, it ends the search.
pub fn after_candidate(registered_clients: bool, outcome: CandidateOutcome) -> (action:
    CandidateAction)
    ensures
        action == (match outcome {
            CandidateOutcome::PrecheckFailed => CandidateAction::Next,
            CandidateOutcome::CreateFailed => if registered_clients {
                CandidateAction::Next
            } else {
                CandidateAction::Fail
            },
            CandidateOutcome::Created { validated } => if validated {
                CandidateAction::Accept
            } else {
                CandidateAction::RollBack
            },
        }),
{
    match outcome {
        CandidateOutcome::PrecheckFailed => CandidateAction::Next,
        CandidateOutcome::CreateFailed => if registered_clients {
            CandidateAction::Next
        } else {
            CandidateAction::Fail
        },
        CandidateOutcome::Created { validated } => if validated {
            CandidateAction::Accept
        } else {
            CandidateAction::RollBack
        },
    }
}

/// The waiting addresses after a search that found nobody.
pub open spec fn after_unmatched(
    registered_clients: bool,
    cooldowns: Map<u128, (u64, u64)>,
    address: u128,
    now: u64,
) -> Map<u128, (u64, u64)> {
    if registered_clients {
        let failures: u64 = if cooldowns.contains_key(address) {
            cooldowns[address].0
        } else {
            0
        };
        cooldowns.insert(address, (counted_up(failures), now))
    } else {
        cooldowns
    }
}

/// Ends a search that found nobody. With registered clients, the address must now wait
/// before it tries again.
pub fn unmatched_handshake(
    registered_clients: bool,
    cooldowns: &mut CounterTable,
    address: u128,
    now: u64,
) -> (error: PacketError)
    ensures
        error == (if registered_clients {
            PacketError::NoClientMatches
        } else {
            PacketError::NoMaskMatches
        }),
        final(cooldowns)@ == after_unmatched(registered_clients, old(cooldowns)@, address, now),
{
    if registered_clients {
        cooldowns.note_failure(address, now);
        PacketError::NoClientMatches
    } else {
        PacketError::NoMaskMatches
    }
}

/// A failed handshake always makes a registered-client server wait at least four seconds for
/// that address.
pub proof fn failed_handshake_starts_cooldown(
    counters: Map<u128, (u64, u64)>,
    address: u128,
    failures: u64,
    now: u64,
    later: u64,
)
    requires
        later < now + 4_000_000_000,
    ensures
        cooling_down(counters.insert(address, (counted_up(failures), now)), address, later),
{
}

/// Header lengths and tag offset that a session's packets have.
#[derive(Clone, Copy, PartialEq, Eq, Structural)]
pub struct SessionLayout {
    pub packet_len: usize,
    pub handshake_len: usize,
    pub tag_offset: u16,
}

/// The layout of a session's packets: a fixed header for other servers, else the session's
/// mask, else the catalog's.
pub open spec fn session_layout_of(
    is_cluster_peer: bool,
    cluster_header_len: usize,
    mask: Option<MaskView>,
    catalog: SessionLayout,
) -> SessionLayout {
    if is_cluster_peer {
        SessionLayout {
            packet_len: cluster_header_len,
            handshake_len: cluster_header_len,
            tag_offset: TAG_IN_FRONT,
        }
    } else {
        match mask {
            Some(m) => SessionLayout {
                packet_len: packet_header_len(m) as usize,
                handshake_len: handshake_header_len(m) as usize,
                tag_offset: m.tag_offset,
            },
            None => catalog,
        }
    }
}

/// The view of an optional mask.
pub open spec fn opt_mask(mask: Option<&MaskProfile>) -> Option<MaskView> {
    match mask {
        Some(m) => Some(m@),
        None => None,
    }
}

/// The layout of a session's packets.
pub fn session_layout(
    is_cluster_peer: bool,
    cluster_header_len: usize,
    mask: Option<&MaskProfile>,
    catalog: SessionLayout,
) -> (layout: SessionLayout)
    ensures
        layout == session_layout_of(is_cluster_peer, cluster_header_len, opt_mask(mask), catalog),
{
    if is_cluster_peer {
        return SessionLayout {
            packet_len: cluster_header_len,
            handshake_len: cluster_header_len,
            tag_offset: TAG_IN_FRONT,
        };
    }
    match mask {
        Some(m) => {
            let l: (usize, usize, usize, usize) = packet_layout_for_mask(m);
            SessionLayout { packet_len: l.0, handshake_len: l.1, tag_offset: m.tag_offset }
        },
        None => catalog,
    }
}

/// What is known of a packet once its session is found.
#[derive(Clone, Copy, PartialEq, Eq, Structural)]
pub struct PacketStanding {
    /// The packet has just opened the session.
    pub is_new_session: bool,
    /// The tag comes from the keys that replace the session's first ones.
    pub is_ratcheted_tag: bool,
    /// The session has already replaced its first keys.
    pub session_ratcheted: bool,
}

/// Where the payload starts behind an ordinary header.
pub open spec fn packet_offset(l: SessionLayout) -> int {
    front_len(l.tag_offset) + l.packet_len
}

/// Where the payload starts behind a handshake header.
pub open spec fn handshake_offset(l: SessionLayout) -> int {
    front_len(l.tag_offset) + l.handshake_len
}

/// The packet may be a handshake that was sent again.
pub open spec fn may_be_retry(len: nat, s: PacketStanding, l: SessionLayout) -> bool {
    &&& !s.is_new_session
    &&& !s.is_ratcheted_tag
    &&& !s.session_ratcheted
    &&& len >= handshake_offset(l) + POLY1305_TAG_SIZE
}

/// The offsets that follow from the session's own layout.
pub open spec fn own_offsets(len: nat, s: PacketStanding, l: SessionLayout) -> Seq<usize> {
    if s.is_new_session {
        seq![handshake_offset(l) as usize]
    } else if may_be_retry(len, s, l) && l.handshake_len != l.packet_len {
        seq![packet_offset(l) as usize, handshake_offset(l) as usize]
    } else {
        seq![packet_offset(l) as usize]
    }
}

/// The offsets at which the payload is looked for, in this order: that of a recognised QUIC
/// header, the session's own, that of the catalog; none twice.
pub open spec fn payload_offsets_of(
    len: nat,
    s: PacketStanding,
    l: SessionLayout,
    catalog: SessionLayout,
    quic: Option<usize>,
) -> Seq<usize> {
    let own = own_offsets(len, s, l);
    let both = if own.contains(packet_offset(catalog) as usize) {
        own
    } else {
        own.push(packet_offset(catalog) as usize)
    };
    match quic {
        Some(q) => if both.contains(q) {
            both
        } else {
            both.insert(0, q)
        },
        None => both,
    }
}

/// The offsets at which a packet's payload is looked for.
pub fn payload_offsets(
    len: usize,
    standing: PacketStanding,
    layout: SessionLayout,
    catalog: SessionLayout,
    quic: Option<usize>,
) -> (offsets: Vec<usize>)
    requires
        layout.packet_len + 24 <= usize::MAX,
        layout.handshake_len + 24 <= usize::MAX,
        catalog.packet_len + 24 <= usize::MAX,
    ensures
        offsets@ == payload_offsets_of(len as nat, standing, layout, catalog, quic),
{
    let prefix: usize = tag_prefix_len(layout.tag_offset);
    let packet_at: usize = prefix + layout.packet_len;
    let handshake_at: usize = prefix + layout.handshake_len;
    let retry: bool = !standing.is_new_session && !standing.is_ratcheted_tag
        && !standing.session_ratcheted && len >= handshake_at + POLY1305_TAG_SIZE;
    let mut offsets: Vec<usize> = Vec::new();
    if standing.is_new_session {
        offsets.push(handshake_at);
    } else {
        offsets.push(packet_at);
        if retry && layout.handshake_len != layout.packet_len {
            offsets.push(handshake_at);
        }
    }
    let ghost own = own_offsets(len as nat, standing, layout);
    assert(offsets@ =~= own);
    let catalog_at: usize = tag_prefix_len(catalog.tag_offset) + catalog.packet_len;
    if !listed(&offsets, catalog_at) {
        offsets.push(catalog_at);
    }
    match quic {
        Some(q) => {
            if !listed(&offsets, q) {
                offsets.insert(0, q);
            }
        },
        None => {},
    }
    assert(offsets@ =~= payload_offsets_of(len as nat, standing, layout, catalog, quic));
    offsets
}

fn listed(offsets: &Vec<usize>, offset: usize) -> (r: bool)
    ensures
        r == offsets@.contains(offset),
{
    let mut i: usize = 0;
    while i < offsets.len()
        invariant
            i <= offsets.len(),
            forall|k: int| 0 <= k < i ==> offsets@[k] != offset,
        decreases offsets.len() - i,
    {
        if offsets[i] == offset {
            return true;
        }
        i += 1;
    }
    false
}

/// No offset is tried twice, and the session's own layout is always tried.
pub proof fn offsets_are_tried_once(
    len: nat,
    s: PacketStanding,
    l: SessionLayout,
    catalog: SessionLayout,
    quic: Option<usize>,
)
    requires
        l.packet_len + 24 <= usize::MAX,
        l.handshake_len + 24 <= usize::MAX,
    ensures
        forall|i: int, j: int|
            0 <= i < j < payload_offsets_of(len, s, l, catalog, quic).len()
                ==> #[trigger] payload_offsets_of(len, s, l, catalog, quic)[i]
                != #[trigger] payload_offsets_of(len, s, l, catalog, quic)[j],
        payload_offsets_of(len, s, l, catalog, quic).contains(
            (if s.is_new_session {
                handshake_offset(l)
            } else {
                packet_offset(l)
            }) as usize,
        ),
{
    let own = own_offsets(len, s, l);
    let both = if own.contains(packet_offset(catalog) as usize) {
        own
    } else {
        own.push(packet_offset(catalog) as usize)
    };
    let all = payload_offsets_of(len, s, l, catalog, quic);
    let mine = own[0];
    assert(both[0] == mine);
    assert forall|i: int, j: int| 0 <= i < j < both.len() implies both[i] != both[j] by {
        if j == own.len() {
            assert(own.contains(own[i]));
        }
    }
    assert(all.contains(mine)) by {
        if all == both {
            assert(all[0] == mine);
        } else {
            assert(all[1] == mine);
        }
    }
    assert forall|i: int, j: int| 0 <= i < j < all.len() implies #[trigger] all[i]
        != #[trigger] all[j] by {
        if all != both {
            assert(all[j] == both[j - 1]);
            if i == 0 {
                assert(both.contains(both[j - 1]));
            } else {
                assert(all[i] == both[i - 1]);
            }
        }
    }
}

/// The first position, from `from` on, of an offset that lies inside the packet.
pub open spec fn first_inside(offsets: Seq<usize>, from: int, packet_len: nat) -> Option<usize>
    decreases offsets.len() - from,
{
    if from >= offsets.len() {
        None
    } else if offsets[from] < packet_len {
        Some(from as usize)
    } else {
        first_inside(offsets, from + 1, packet_len)
    }
}

/// The position of the next offset, from `from` on, that lies inside the packet. `None` where
/// there is none left.
pub fn next_payload_offset(offsets: &Vec<usize>, from: usize, packet_len: usize) -> (at: Option<
    usize,
>)
    ensures
        at == first_inside(offsets@, from as int, packet_len as nat),
        at is Some ==> from <= at->0 < offsets@.len() && offsets@[at->0 as int] < packet_len,
{
    let mut i: usize = from;
    while i < offsets.len()
        invariant
            from <= i,
            first_inside(offsets@, from as int, packet_len as nat) == first_inside(
                offsets@,
                i as int,
                packet_len as nat,
            ),
        decreases offsets.len() - i,
    {
        if offsets[i] < packet_len {
            return Some(i);
        }
        i += 1;
    }
    None
}

/// Which of a session's keys opens a packet.
#[derive(Clone, Copy, PartialEq, Eq, Structural)]
pub enum KeyChoice {
    Session,
    Ratcheted,
}

/// Which of a session's keys opens a packet: the replacement keys only where the tag came
/// from them.
pub open spec fn key_for(standing: PacketStanding, has_ratcheted_keys: bool) -> Result<
    KeyChoice,
    PacketError,
> {
    if standing.is_new_session || !standing.is_ratcheted_tag {
        Ok(KeyChoice::Session)
    } else if has_ratcheted_keys {
        Ok(KeyChoice::Ratcheted)
    } else {
        Err(PacketError::RatchetedKeysMissing)
    }
}

/// Which of a session's keys opens a packet.
pub fn choose_key(standing: PacketStanding, has_ratcheted_keys: bool) -> (choice: Result<
    KeyChoice,
    PacketError,
>)
    ensures
        choice == Ok::<KeyChoice, PacketError>(KeyChoice::Ratcheted) <==> has_ratcheted_keys
            && standing.is_ratcheted_tag && !standing.is_new_session,
        choice is Err <==> !has_ratcheted_keys && standing.is_ratcheted_tag
            && !standing.is_new_session,
        choice == key_for(standing, has_ratcheted_keys),
{
    if standing.is_new_session || !standing.is_ratcheted_tag {
        Ok(KeyChoice::Session)
    } else if has_ratcheted_keys {
        Ok(KeyChoice::Ratcheted)
    } else {
        Err(PacketError::RatchetedKeysMissing)
    }
}

/// A body between its padding length, in two little-endian bytes, and its padding.
pub open spec fn padded(body: Seq<u8>, padding: Seq<u8>) -> Seq<u8> {
    seq![(padding.len() % 256) as u8, (padding.len() / 256) as u8] + body + padding
}

/// The padding length that a padded body announces.
pub open spec fn announced(s: Seq<u8>) -> nat {
    (s[0] + 256 * s[1]) as nat
}

/// What is left of a padded body without its padding.
pub open spec fn unpadded(s: Seq<u8>) -> Result<Seq<u8>, PacketError> {
    if s.len() < 2 {
        Err(PacketError::PayloadTooShort)
    } else if 2 + announced(s) > s.len() {
        Err(PacketError::InvalidPadding)
    } else {
        Ok(s.subrange(2, s.len() - announced(s)))
    }
}

/// Takes the padding off a decrypted payload.
pub fn strip_padding(s: &[u8]) -> (body: Result<Vec<u8>, PacketError>)
    ensures
        match body {
            Ok(b) => unpadded(s@) == Ok::<Seq<u8>, PacketError>(b@),
            Err(e) => unpadded(s@) == Err::<Seq<u8>, PacketError>(e),
        },
{
    if s.len() < 2 {
        return Err(PacketError::PayloadTooShort);
    }
    let pad_len: usize = s[0] as usize + 256 * s[1] as usize;
    if s.len() - 2 < pad_len {
        return Err(PacketError::InvalidPadding);
    }
    let mut body: Vec<u8> = Vec::new();
    let end: usize = s.len() - pad_len;
    let mut i: usize = 2;
    while i < end
        invariant
            2 <= i <= end,
            end <= s.len(),
            body@ == s@.subrange(2, i as int),
        decreases end - i,
    {
        body.push(s[i]);
        assert(body@ =~= s@.subrange(2, i + 1));
        i += 1;
    }
    Ok(body)
}

/// Puts a body between its padding length and its padding.
pub fn add_padding(body: &[u8], padding: &[u8]) -> (out: Vec<u8>)
    requires
        padding@.len() <= 65535,
    ensures
        out@ == padded(body@, padding@),
{
    let mut out: Vec<u8> = Vec::new();
    out.push((padding.len() % 256) as u8);
    out.push((padding.len() / 256) as u8);
    out.extend_from_slice(body);
    out.extend_from_slice(padding);
    assert(out@ =~= padded(body@, padding@));
    out
}

/// Whatever is padded comes back whole.
pub proof fn padding_is_undone(body: Seq<u8>, padding: Seq<u8>)
    requires
        padding.len() <= 65535,
    ensures
        unpadded(padded(body, padding)) == Ok::<Seq<u8>, PacketError>(body),
{
    let s = padded(body, padding);
    assert(s[0] == (padding.len() % 256) as u8);
    assert(s[1] == (padding.len() / 256) as u8);
    assert(announced(s) == padding.len());
    assert(s.subrange(2, s.len() - padding.len()) =~= body);
}

/// The nonce of a counter: eight little-endian bytes, then zeros.
pub open spec fn nonce_of(counter: nat) -> Seq<u8> {
    Seq::new(
        NONCE_SIZE as nat,
        |i: int|
            if i < 8 {
                (counter / vstd::arithmetic::power::pow(256, i as nat) as nat % 256) as u8
            } else {
                0u8
            },
    )
}

/// The nonce of a packet counter.
pub fn compute_nonce(counter: u64) -> (nonce: [u8; 12])
    ensures
        nonce@ == nonce_of(counter as nat),
{
    let mut nonce: [u8; 12] = [0u8; 12];
    let mut rest: u64 = counter;
    let mut i: usize = 0;
    proof {
        vstd::arithmetic::power::lemma_pow0(256);
        vstd::arithmetic::div_mod::lemma_div_basics(counter as int);
    }
    while i < 8
        invariant
            i <= 8,
            vstd::arithmetic::power::pow(256, i as nat) > 0,
            rest == counter as nat / (vstd::arithmetic::power::pow(256, i as nat) as nat),
            forall|k: int|
                0 <= k < i ==> nonce@[k] == (counter as nat / (vstd::arithmetic::power::pow(
                    256,
                    k as nat,
                ) as nat) % 256) as u8,
            forall|k: int| i <= k < 12 ==> nonce@[k] == 0,
        decreases 8 - i,
    {
        proof {
            let p = vstd::arithmetic::power::pow(256, i as nat);
            vstd::arithmetic::power::lemma_pow1(256);
            vstd::arithmetic::power::lemma_pow_adds(256, i as nat, 1);
            vstd::arithmetic::power::lemma_pow_positive(256, i as nat + 1);
            vstd::arithmetic::div_mod::lemma_div_denominator(counter as int, p, 256);
        }
        nonce[i] = (rest % 256) as u8;
        rest = rest / 256;
        i += 1;
    }
    assert(nonce@ =~= nonce_of(counter as nat));
    nonce
}

/// The number that a nonce's first `n` bytes stand for.
pub open spec fn nonce_value(nonce: Seq<u8>, n: nat) -> nat
    decreases n,
{
    if n == 0 {
        0
    } else {
        nonce_value(nonce, (n - 1) as nat) + (nonce[n - 1] as nat) * (vstd::arithmetic::power::pow(
            256,
            (n - 1) as nat,
        ) as nat)
    }
}

proof fn lemma_nonce_value(counter: nat, n: nat)
    requires
        n <= 8,
    ensures
        vstd::arithmetic::power::pow(256, n) > 0,
        nonce_value(nonce_of(counter), n) == counter % (vstd::arithmetic::power::pow(256, n) as nat),
    decreases n,
{
    vstd::arithmetic::power::lemma_pow_positive(256, n);
    if n == 0 {
        vstd::arithmetic::power::lemma_pow0(256);
    } else {
        let m = (n - 1) as nat;
        lemma_nonce_value(counter, m);
        let p = vstd::arithmetic::power::pow(256, m);
        vstd::arithmetic::power::lemma_pow1(256);
        vstd::arithmetic::power::lemma_pow_adds(256, m, 1);
        vstd::arithmetic::div_mod::lemma_mod_breakdown(counter as int, p, 256);
        assert(vstd::arithmetic::power::pow(256, n) == p * 256);
        let d = (counter / (p as nat)) % 256;
        assert(nonce_of(counter)[m as int] == d as u8);
        assert(d * p == p * d) by (nonlinear_arith);
    }
}

/// Different counters never share a nonce.
pub proof fn nonces_are_distinct(a: u64, b: u64)
    requires
        nonce_of(a as nat) == nonce_of(b as nat),
    ensures
        a == b,
{
    lemma_nonce_value(a as nat, 8);
    lemma_nonce_value(b as nat, 8);
    assert(vstd::arithmetic::power::pow(256, 8) == 0x1_0000_0000_0000_0000) by {
        reveal_with_fuel(vstd::arithmetic::power::pow, 9);
    }
    let m: nat = 0x1_0000_0000_0000_0000;
    vstd::arithmetic::div_mod::lemma_small_mod(a as nat, m);
    vstd::arithmetic::div_mod::lemma_small_mod(b as nat, m);
}

/// Traffic of a session that has not been written out yet, and since its keys were replaced.
#[derive(Clone, Copy, PartialEq, Eq, Structural)]
pub struct TrafficCounters {
    pub pending_bytes_in: u64,
    pub pending_bytes_out: u64,
    pub bytes_since_rekey: u64,
}

/// A sum that the counter's width bounds.
pub open spec fn capped_sum(a: u64, b: u64) -> u64 {
    if a + b > u64::MAX {
        u64::MAX
    } else {
        (a + b) as u64
    }
}

/// A session's counts after a packet from the client. Once enough is pending in either
/// direction both counts start over.
pub open spec fn after_uplink(t: TrafficCounters, packet_len: u64) -> TrafficCounters {
    let bytes_in = capped_sum(t.pending_bytes_in, packet_len);
    let full = bytes_in >= UPLINK_FLUSH_BYTES || t.pending_bytes_out >= UPLINK_FLUSH_BYTES;
    TrafficCounters {
        pending_bytes_in: if full {
            0
        } else {
            bytes_in
        },
        pending_bytes_out: if full {
            0
        } else {
            t.pending_bytes_out
        },
        bytes_since_rekey: capped_sum(t.bytes_since_rekey, packet_len),
    }
}

/// What is billed after a packet from the client, where the session has a client to bill.
pub open spec fn billed_uplink(t: TrafficCounters, packet_len: u64, has_client: bool) -> Option<
    (u64, u64),
> {
    let bytes_in = capped_sum(t.pending_bytes_in, packet_len);
    if has_client && (bytes_in >= UPLINK_FLUSH_BYTES || t.pending_bytes_out >= UPLINK_FLUSH_BYTES) {
        Some((bytes_in, t.pending_bytes_out))
    } else {
        None
    }
}

impl TrafficCounters {
    /// Counts a packet from the client. Once enough is pending in either direction both
    /// counts start over; they are handed out where the session has a client to bill.
    pub fn account_uplink(&mut self, packet_len: u64, has_client: bool) -> (flush: Option<
        (u64, u64),
    >)
        ensures
            flush == billed_uplink(*old(self), packet_len, has_client),
            *final(self) == after_uplink(*old(self), packet_len),
    {
        self.pending_bytes_in = self.pending_bytes_in.saturating_add(packet_len);
        self.bytes_since_rekey = self.bytes_since_rekey.saturating_add(packet_len);
        let mut flush: Option<(u64, u64)> = None;
        if self.pending_bytes_in >= UPLINK_FLUSH_BYTES || self.pending_bytes_out
            >= UPLINK_FLUSH_BYTES {
            if has_client {
                flush = Some((self.pending_bytes_in, self.pending_bytes_out));
            }
            self.pending_bytes_in = 0;
            self.pending_bytes_out = 0;
        }
        flush
    }

    /// Counts a packet to the client. Once enough is pending the count starts over; it is
    /// handed out where the session has a client to bill.
    pub fn account_downlink(&mut self, packet_len: u64, has_client: bool) -> (flush: Option<u64>)
        requires
            packet_len + DOWNLINK_OVERHEAD_ESTIMATE <= u64::MAX,
        ensures
            ({
                let bytes_out = capped_sum(
                    old(self).pending_bytes_out,
                    (packet_len + DOWNLINK_OVERHEAD_ESTIMATE) as u64,
                );
                let full = bytes_out >= DOWNLINK_FLUSH_BYTES;
                &&& flush == (if full && has_client {
                    Some(bytes_out)
                } else {
                    None
                })
                &&& *final(self) == (TrafficCounters {
                    pending_bytes_in: old(self).pending_bytes_in,
                    pending_bytes_out: if full {
                        0
                    } else {
                        bytes_out
                    },
                    bytes_since_rekey: old(self).bytes_since_rekey,
                })
            }),
    {
        let estimate: u64 = packet_len + DOWNLINK_OVERHEAD_ESTIMATE;
        self.pending_bytes_out = self.pending_bytes_out.saturating_add(estimate);
        if self.pending_bytes_out >= DOWNLINK_FLUSH_BYTES {
            let bytes: u64 = self.pending_bytes_out;
            self.pending_bytes_out = 0;
            if has_client {
                Some(bytes)
            } else {
                None
            }
        } else {
            None
        }
    }
}

/// Whether the tag window must move on before the client runs out of tags.
pub fn needs_tag_refresh(counter: u64, window_base: u64) -> (r: bool)
    ensures
        r == (counter >= window_base + TAG_REFRESH_STRIDE),
{
    counter.saturating_sub(window_base) >= TAG_REFRESH_STRIDE
}

/// Whether a packet is among the one in sixteen whose traffic pattern is sampled.
pub fn is_sampled(counter: u64) -> (r: bool)
    ensures
        r == (counter % 16 == 0),
{
    counter % 16 == 0
}

/// What follows from a packet that was decrypted.
#[derive(Clone, Copy, Debug, PartialEq, Eq, Structural)]
pub struct ReceiveEffects {
    /// The session's first keys are replaced for good.
    pub complete_ratchet: bool,
    /// The kernel is given the session.
    pub install_kernel: bool,
    /// The client has moved to the address that the packet came from.
    pub migrate: bool,
    /// The tags that are expected next are computed anew.
    pub refresh_tags: bool,
    /// The packet is shown to the check of the session's mask.
    pub sample: bool,
    /// What the packet holds is acted on.
    pub deliver: bool,
}

/// What follows from a packet that was decrypted. The packet that opens a session proves the
/// client's keys and nothing else: it moves no session, and what it holds is not acted on.
pub open spec fn effects_of(
    standing: PacketStanding,
    has_kernel: bool,
    from_other_address: bool,
    counter: u64,
    window_base: u64,
    checks_masks: bool,
) -> ReceiveEffects {
    ReceiveEffects {
        complete_ratchet: standing.is_ratcheted_tag,
        install_kernel: standing.is_ratcheted_tag && has_kernel,
        migrate: !standing.is_new_session && from_other_address,
        refresh_tags: counter >= window_base + TAG_REFRESH_STRIDE,
        sample: checks_masks && counter % 16 == 0,
        deliver: !standing.is_new_session,
    }
}

/// What follows from a packet that was decrypted.
pub fn receive_effects(
    standing: PacketStanding,
    has_kernel: bool,
    from_other_address: bool,
    counter: u64,
    window_base: u64,
    checks_masks: bool,
) -> (effects: ReceiveEffects)
    ensures
        effects == effects_of(
            standing,
            has_kernel,
            from_other_address,
            counter,
            window_base,
            checks_masks,
        ),
{
    ReceiveEffects {
        complete_ratchet: standing.is_ratcheted_tag,
        install_kernel: standing.is_ratcheted_tag && has_kernel,
        migrate: !standing.is_new_session && from_other_address,
        refresh_tags: needs_tag_refresh(counter, window_base),
        sample: checks_masks && is_sampled(counter),
        deliver: !standing.is_new_session,
    }
}

/// Whether a new session may send packets before it has shown a certificate.
pub fn certified_at_start(certificate_required: bool) -> (r: bool)
    ensures
        r == !certificate_required,
{
    !certificate_required
}

/// A client that is switched off is never admitted, whatever its expiry. One that is switched on
/// is admitted for good where it has no expiry, and up to the moment before it where it has one.
pub proof fn switched_off_client_is_never_admitted(expiry: i64, now: i64)
    ensures
        !may_connect(false, None, now),
        !may_connect(false, Some(expiry), now),
        may_connect(true, None, now),
        may_connect(true, Some(expiry), now) <==> now < expiry,
{
}

/// Admission ends once: a client that is refused for its expiry is refused from then on.
pub proof fn expiry_is_final(enabled: bool, expiry: i64, now: i64, later: i64)
    requires
        enabled,
        now <= later,
    ensures
        !may_connect(enabled, Some(expiry), now) ==> !may_connect(enabled, Some(expiry), later),
        may_connect(enabled, Some(expiry), later) ==> may_connect(enabled, Some(expiry), now),
        !may_connect(enabled, Some(expiry), expiry),
{
}

/// A packet of an established session whose tag came from the replacement keys is opened with
/// them, whether or not the session has switched over; where they are gone it is refused.
/// Everything else is opened with the session's own key.
pub proof fn tag_decides_the_key(s: PacketStanding, other: PacketStanding, has_keys: bool)
    ensures
        !s.is_new_session && s.is_ratcheted_tag ==> key_for(s, true) == Ok::<
            KeyChoice,
            PacketError,
        >(KeyChoice::Ratcheted),
        !s.is_new_session && s.is_ratcheted_tag ==> key_for(s, false) == Err::<
            KeyChoice,
            PacketError,
        >(PacketError::RatchetedKeysMissing),
        s.is_new_session ==> key_for(s, has_keys) == Ok::<KeyChoice, PacketError>(
            KeyChoice::Session,
        ),
        !s.is_ratcheted_tag ==> key_for(s, has_keys) == Ok::<KeyChoice, PacketError>(
            KeyChoice::Session,
        ),
        s.is_new_session == other.is_new_session && s.is_ratcheted_tag == other.is_ratcheted_tag
            ==> key_for(s, has_keys) == key_for(other, has_keys),
{
}

/// A handshake is taken up exactly where none from its address is in progress, fewer than 490
/// sessions stand, its address need not wait, and fewer than a hundred others were taken up in
/// the running second. It is passed over without a word where there is no room for it, and
/// otherwise refused for the first reason that holds.
pub proof fn handshake_is_taken_up_where_there_is_room(
    in_progress: bool,
    session_count: usize,
    cooling: bool,
    budget: ScanBudget,
    now: u64,
)
    ensures
        ({
            let admission = admitted(in_progress, session_count, cooling, budget, now);
            let room = !in_progress && session_count < 490;
            let scans_left = now > budget.since + 1_000_000_000 || budget.count < 100;
            &&& admission == Admission::Ignore <==> !room
            &&& admission == Admission::Refuse(PacketError::CooldownActive) <==> room && cooling
            &&& admission == Admission::Refuse(PacketError::ScanBudgetExhausted) <==> room
                && !cooling && !scans_left
            &&& admission == Admission::Proceed <==> room && !cooling && scans_left
        }),
{
}

/// A handshake's tag and key are read where its mask puts them: behind eight bytes of tag where
/// the tag stands in front, else at the mask's own offsets.
pub proof fn handshake_is_read_where_the_mask_puts_it(packet: Seq<u8>, mask: MaskView)
    requires
        mask.eph_pub_length == 32,
    ensures
        mask.tag_offset == 65535 ==> match candidate_of(packet, mask) {
            Some((tag, key)) => {
                &&& tag == packet.subrange(0, 8)
                &&& key == packet.subrange(8 + mask.eph_pub_offset, 40 + mask.eph_pub_offset)
                &&& packet.len() >= 8 + handshake_header_len(mask)
            },
            None => packet.len() < 8 + handshake_header_len(mask),
        },
        mask.tag_offset != 65535 ==> match candidate_of(packet, mask) {
            Some((tag, key)) => {
                &&& tag == packet.subrange(mask.tag_offset as int, mask.tag_offset + 8)
                &&& key == packet.subrange(mask.eph_pub_offset as int, 32 + mask.eph_pub_offset)
                &&& packet.len() >= handshake_header_len(mask)
                &&& packet.len() >= mask.tag_offset + 8
            },
            None => packet.len() < handshake_header_len(mask) || packet.len() < mask.tag_offset
                + 8,
        },
{
}

/// What a client puts together as a handshake is taken apart again: its tag, what stands before
/// its key, the key and the rest give back tag and key.
pub proof fn handshake_is_taken_apart(
    tag: Seq<u8>,
    before: Seq<u8>,
    key: Seq<u8>,
    rest: Seq<u8>,
    mask: MaskView,
)
    requires
        mask.tag_offset == 65535,
        mask.eph_pub_length == 32,
        tag.len() == 8,
        key.len() == 32,
        before.len() == mask.eph_pub_offset,
        before.len() + 32 + rest.len() >= packet_header_len(mask),
    ensures
        candidate_of(tag + before + key + rest, mask) == Some((tag, key)),
{
    let packet = tag + before + key + rest;
    assert(packet.subrange(0, 8) =~= tag);
    assert(packet.subrange(8 + mask.eph_pub_offset, 40 + mask.eph_pub_offset) =~= key);
}

/// A handshake that nobody recognises counts against its address, by one, from that moment on,
/// and against no other; where there is no registry it counts against nobody.
pub proof fn unrecognised_handshake_counts_against_its_address(
    cooldowns: Map<u128, (u64, u64)>,
    address: u128,
    other: u128,
    now: u64,
)
    requires
        other != address,
    ensures
        after_unmatched(false, cooldowns, address, now) == cooldowns,
        ({
            let after = after_unmatched(true, cooldowns, address, now);
            &&& after.contains_key(address) && after[address].1 == now
            &&& !cooldowns.contains_key(address) ==> after[address].0 == 1
            &&& cooldowns.contains_key(address) && cooldowns[address].0 < u64::MAX
                ==> after[address].0 == cooldowns[address].0 + 1
            &&& cooldowns.contains_key(address) && cooldowns[address].0 == u64::MAX
                ==> after[address].0 == u64::MAX
            &&& after.contains_key(other) == cooldowns.contains_key(other)
            &&& cooldowns.contains_key(other) ==> after[other] == cooldowns[other]
        }),
{
}

/// A peer server's packets have its own header and their tag in front, whatever mask its session
/// has; a client's follow the mask of its session, and the catalog where it has none.
pub proof fn packets_are_laid_out_by_their_session(
    cluster_len: usize,
    mask: MaskView,
    any_mask: Option<MaskView>,
    catalog: SessionLayout,
)
    requires
        handshake_header_len(mask) <= usize::MAX,
    ensures
        session_layout_of(true, cluster_len, any_mask, catalog) == (SessionLayout {
            packet_len: cluster_len,
            handshake_len: cluster_len,
            tag_offset: 65535,
        }),
        session_layout_of(false, cluster_len, None, catalog) == catalog,
        ({
            let layout = session_layout_of(false, cluster_len, Some(mask), catalog);
            &&& layout.packet_len == packet_header_len(mask)
            &&& layout.handshake_len == handshake_header_len(mask)
            &&& layout.tag_offset == mask.tag_offset
        }),
{
}

/// A payload is looked for behind the session's header, or behind its longer handshake header in
/// the packet that opens the session; a repeated handshake is looked for there too, as long as
/// the first keys are in use and there is room for a sealed payload. The catalog's header comes
/// last, a QUIC header first, and there is nothing else.
pub proof fn payload_is_looked_for_in_order(
    len: nat,
    s: PacketStanding,
    l: SessionLayout,
    catalog: SessionLayout,
)
    requires
        l.packet_len + 24 <= usize::MAX,
        l.handshake_len + 24 <= usize::MAX,
        catalog.packet_len + 24 <= usize::MAX,
    ensures
        ({
            let front: int = if l.tag_offset == 65535 {
                8
            } else {
                0
            };
            let packet_at = front + l.packet_len;
            let handshake_at = front + l.handshake_len;
            let catalog_at = catalog.packet_len + (if catalog.tag_offset == 65535 {
                8int
            } else {
                0
            });
            let retry = !s.is_new_session && !s.is_ratcheted_tag && !s.session_ratcheted && len
                >= handshake_at + 16 && handshake_at != packet_at;
            let all = payload_offsets_of(len, s, l, catalog, None);
            &&& all[0] == (if s.is_new_session {
                handshake_at
            } else {
                packet_at
            })
            &&& retry ==> all.len() >= 2 && all[1] == handshake_at
            &&& retry && catalog_at != packet_at && catalog_at != handshake_at ==> all.len() == 3
                && all[2] == catalog_at
            &&& retry && (catalog_at == packet_at || catalog_at == handshake_at) ==> all.len() == 2
            &&& !retry && catalog_at != all[0] ==> all.len() == 2 && all[1] == catalog_at
            &&& !retry && catalog_at == all[0] ==> all.len() == 1
        }),
{
    let own = own_offsets(len, s, l);
    let at = packet_offset(catalog) as usize;
    assert(own.contains(at) <==> own[0] == at || own.len() > 1 && own[1] == at) by {
        if own.contains(at) {
            let k = choose|k: int| 0 <= k < own.len() && own[k] == at;
        }
    }
}

/// A QUIC header is tried before all others, unless it ends where another does; the others are
/// tried as they are without it.
pub proof fn quic_header_is_tried_first(
    len: nat,
    s: PacketStanding,
    l: SessionLayout,
    catalog: SessionLayout,
    quic: usize,
)
    ensures
        ({
            let others = payload_offsets_of(len, s, l, catalog, None);
            let all = payload_offsets_of(len, s, l, catalog, Some(quic));
            &&& others.contains(quic) ==> all == others
            &&& !others.contains(quic) ==> all == seq![quic] + others
        }),
{
    let others = payload_offsets_of(len, s, l, catalog, None);
    if !others.contains(quic) {
        assert(payload_offsets_of(len, s, l, catalog, Some(quic)) =~= seq![quic] + others);
    }
}

/// The next offset that is tried is the first that lies inside the packet; none is tried only
/// where none does.
pub proof fn first_offset_inside_is_taken(offsets: Seq<usize>, from: int, packet_len: nat)
    requires
        0 <= from,
        offsets.len() <= usize::MAX,
    ensures
        match first_inside(offsets, from, packet_len) {
            Some(at) => {
                &&& from <= at < offsets.len()
                &&& offsets[at as int] < packet_len
                &&& forall|k: int| from <= k < at ==> #[trigger] offsets[k] >= packet_len
            },
            None => forall|k: int|
                from <= k < offsets.len() ==> #[trigger] offsets[k] >= packet_len,
        },
    decreases offsets.len() - from,
{
    if from < offsets.len() && offsets[from] >= packet_len {
        first_offset_inside_is_taken(offsets, from + 1, packet_len);
    }
}

/// Padding is taken off by what the first two bytes say, low byte first: what is left is all
/// that stands between them and the padding. Bytes that cannot say it, or say more than there
/// is, are refused.
pub proof fn padding_is_taken_off_as_announced(s: Seq<u8>)
    ensures
        s.len() < 2 <==> unpadded(s) == Err::<Seq<u8>, PacketError>(PacketError::PayloadTooShort),
        s.len() >= 2 && s[0] + s[1] * 256 > s.len() - 2 <==> unpadded(s) == Err::<
            Seq<u8>,
            PacketError,
        >(PacketError::InvalidPadding),
        s.len() >= 2 && s[0] + s[1] * 256 <= s.len() - 2 ==> match unpadded(s) {
            Ok(body) => {
                &&& body.len() == s.len() - 2 - (s[0] + s[1] * 256)
                &&& forall|i: int| 0 <= i < body.len() ==> #[trigger] body[i] == s[i + 2]
            },
            Err(_) => false,
        },
{
}

/// A nonce is the counter itself, low byte first, in twelve bytes.
pub proof fn nonce_spells_the_counter(counter: u64)
    ensures
        ({
            let n = nonce_of(counter as nat);
            &&& n.len() == 12
            &&& n[0] + n[1] * 0x100 + n[2] * 0x1_0000 + n[3] * 0x100_0000 + n[4] * 0x1_0000_0000
                + n[5] * 0x100_0000_0000 + n[6] * 0x1_0000_0000_0000 + n[7] * 0x100_0000_0000_0000
                == counter
            &&& n[8] == 0 && n[9] == 0 && n[10] == 0 && n[11] == 0
        }),
{
    let n = nonce_of(counter as nat);
    lemma_nonce_value(counter as nat, 8);
    assert(vstd::arithmetic::power::pow(256, 0) == 1
        && vstd::arithmetic::power::pow(256, 1) == 0x100
        && vstd::arithmetic::power::pow(256, 2) == 0x1_0000
        && vstd::arithmetic::power::pow(256, 3) == 0x100_0000
        && vstd::arithmetic::power::pow(256, 4) == 0x1_0000_0000
        && vstd::arithmetic::power::pow(256, 5) == 0x100_0000_0000
        && vstd::arithmetic::power::pow(256, 6) == 0x1_0000_0000_0000
        && vstd::arithmetic::power::pow(256, 7) == 0x100_0000_0000_0000) by {
        reveal_with_fuel(vstd::arithmetic::power::pow, 9);
    }
    assert(nonce_value(n, 0) == 0);
    assert(nonce_value(n, 1) == nonce_value(n, 0) + n[0] * 1);
    assert(nonce_value(n, 2) == nonce_value(n, 1) + n[1] * 0x100);
    assert(nonce_value(n, 3) == nonce_value(n, 2) + n[2] * 0x1_0000);
    assert(nonce_value(n, 4) == nonce_value(n, 3) + n[3] * 0x100_0000);
    assert(nonce_value(n, 5) == nonce_value(n, 4) + n[4] * 0x1_0000_0000);
    assert(nonce_value(n, 6) == nonce_value(n, 5) + n[5] * 0x100_0000_0000);
    assert(nonce_value(n, 7) == nonce_value(n, 6) + n[6] * 0x1_0000_0000_0000);
    assert(nonce_value(n, 8) == nonce_value(n, 7) + n[7] * 0x100_0000_0000_0000);
    assert(vstd::arithmetic::power::pow(256, 8) == 0x1_0000_0000_0000_0000) by {
        reveal_with_fuel(vstd::arithmetic::power::pow, 9);
    }
    vstd::arithmetic::div_mod::lemma_small_mod(counter as nat, 0x1_0000_0000_0000_0000);
}

/// No byte from a client is lost or billed twice: what was pending and the packet together are
/// either still pending, or billed to the client, or dropped for want of one. The count since
/// the last key exchange grows by the packet in any case.
pub proof fn uplink_bytes_are_pending_or_billed(t: TrafficCounters, packet_len: u64, has_client: bool)
    requires
        t.pending_bytes_in + packet_len <= u64::MAX,
        t.bytes_since_rekey + packet_len <= u64::MAX,
    ensures
        ({
            let after = after_uplink(t, packet_len);
            let billed = billed_uplink(t, packet_len, has_client);
            let due = t.pending_bytes_in + packet_len >= 16384 || t.pending_bytes_out >= 16384;
            &&& billed is Some <==> due && has_client
            &&& billed matches Some((bytes_in, bytes_out)) ==> bytes_in == t.pending_bytes_in
                + packet_len && bytes_out == t.pending_bytes_out
            &&& due ==> after.pending_bytes_in == 0 && after.pending_bytes_out == 0
            &&& !due ==> after.pending_bytes_in == t.pending_bytes_in + packet_len
                && after.pending_bytes_out == t.pending_bytes_out
            &&& after.bytes_since_rekey == t.bytes_since_rekey + packet_len
        }),
{
}

/// Counts of traffic stop at the most that they can hold.
pub proof fn traffic_counts_stop_at_their_limit(a: u64, b: u64)
    ensures
        a + b <= u64::MAX ==> capped_sum(a, b) == a + b,
        a + b > u64::MAX ==> capped_sum(a, b) == u64::MAX,
{
}

/// What follows from a packet, each for its own reason: a tag of the replacement keys settles
/// them, and hands the session to the kernel where there is one; a known session's packet from
/// another address moves the session there, and is acted on; tags are computed anew once the
/// counter is 128 ahead; one packet in sixteen is sampled.
pub proof fn packet_has_its_effects(
    s: PacketStanding,
    has_kernel: bool,
    from_other_address: bool,
    counter: u64,
    window_base: u64,
    checks_masks: bool,
)
    ensures
        ({
            let e = effects_of(
                s,
                has_kernel,
                from_other_address,
                counter,
                window_base,
                checks_masks,
            );
            &&& e.complete_ratchet <==> s.is_ratcheted_tag
            &&& e.install_kernel <==> s.is_ratcheted_tag && has_kernel
            &&& e.migrate <==> from_other_address && !s.is_new_session
            &&& e.refresh_tags <==> counter - window_base >= 128
            &&& e.sample <==> checks_masks && counter % 16 == 0
            &&& e.deliver <==> !s.is_new_session
        }),
{
}

/// Traffic to a client is billed in lots of 64 KiB, four times those of traffic from it, and each
/// packet to it counts 64 bytes more than it holds.
pub proof fn downlink_is_billed_in_larger_lots(packet_len: u64)
    ensures
        DOWNLINK_FLUSH_BYTES == 4 * UPLINK_FLUSH_BYTES,
        DOWNLINK_FLUSH_BYTES == 64 * 1024,
        packet_len + DOWNLINK_OVERHEAD_ESTIMATE == packet_len + 64,
{
}

} // verus!
