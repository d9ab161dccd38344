//! What the server does about the messages that clients send it.

use crate::data_plane::{ipv4_addresses, is_ipv4, same_address, source_of};
use crate::feedback_map::cast_all;
use crate::hints::{hints_view, is_hints, Hint};
use crate::layout::{polymorphic_variant_already_active, MaskProfile};
use crate::mask_feedback::{
    cache_view, cached, dropped, is_gated, outcomes_view, read_part, tally, CacheView,
    MaskFeedbackStore, MaskOutcome,
};
use crate::outside::{blake3_digest, blake3_hash, equal_in_constant_time};
use crate::region::rollup_of;
use crate::text::{has_prefix, hex_text, push_hex, push_text, starts_with};
use crate::throttle::{
    claimed, is_free, SlotTable, MASK_FEEDBACK_THROTTLE, MASK_PREFERENCE_THROTTLE,
};
use vstd::prelude::*;
use vstd::utf8::encode_utf8;

verus! {

/// A message from a client.
pub enum ControlMessage {
    KeyRotate { new_eph_pub: [u8; 32] },
    MaskUpdate,
    Keepalive { send_ts: u64 },
    TelemetryRequest,
    TelemetryResponse { packet_loss: u16, rtt_ms: u16 },
    TimeSync,
    Shutdown,
    ControlAck,
    ServerHello,
    RecordingStart { service: String },
    RecordingStop { session_id: u128 },
    RecordingStatusRequest,
    RecordingAck,
    RecordingComplete,
    RecordingFailed,
    RecordingStatus,
    BootstrapDescriptorUpdate,
    PoolSync { clients_json: Vec<u8> },
    RouteSync { subnets_json: Vec<u8> },
    ChainForward { payload: Vec<u8> },
    ClientCert { cert_bytes: Vec<u8> },
    CertRejected,
    DeviceEnrollment { static_pub: [u8; 32], dh_proof: [u8; 32] },
    KeepaliveAck,
    QualityReport { quality: u8, rtt_ms: u16 },
    AdaptiveHint,
    MaskPreference { base_mask_id: String },
    MaskFeedback { entries: Vec<MaskOutcome>, country_code: [u8; 2] },
    RegionalMaskHints,
    MaskCatalog,
    FeedbackConfig,
}

/// What is known of a session, and of the server, when a message arrives on it.
pub struct SessionFacts {
    pub session_id: u128,
    pub client_id: Option<String>,
    /// The name under which the client is registered.
    pub client_name: Option<String>,
    pub has_mask: bool,
    pub is_ratcheted: bool,
    pub has_pending_rekey: bool,
    pub is_pool_peer: bool,
    pub is_site_peer: bool,
    pub vpn_ip: Option<[u8; 4]>,
    pub catalog_version_sent: u64,
    /// The version of the stored masks, where masks are stored.
    pub catalog_version: Option<u64>,
    pub has_client_db: bool,
    pub has_recorder: bool,
    pub has_tun: bool,
    pub exit_node_enabled: bool,
    pub mtls_enabled: bool,
}

/// What the server does about a message.
pub enum ControlStep {
    /// Nothing.
    Ignore,
    /// The session's new keys come into use.
    CommitRekey { new_eph_pub: [u8; 32] },
    /// The client missed the server's greeting: it is sent again.
    ResendServerHello,
    /// The message is answered, and the list of masks of this version is sent after it.
    AckKeepalive { echo_ts: u64, catalog: Option<u64> },
    /// The server's own telemetry is sent.
    ReplyTelemetry { packet_loss: u16, rtt_ms: u16, jitter_ms: u16, buffer_pct: u8 },
    /// The client's telemetry is noted for its mask.
    RecordTelemetry { packet_loss: u16, rtt_ms: u16 },
    /// The session ends, and with it its recording where recordings are made.
    EndSession { stop_recording: bool },
    /// A recording starts.
    StartRecording { service: String },
    /// The client may not record.
    RefuseRecording,
    /// The session's recording stops.
    StopRecording,
    /// The recording is another session's.
    RefuseStop,
    /// The client learns whether it may record, and what is being recorded.
    ReportRecording { can_record: bool },
    /// Clients of another server of the pool are taken over.
    MergeClients { clients_json: Vec<u8> },
    /// The sender is not of the pool, which is written to the audit log.
    RejectPoolSync,
    /// Routes of another site are taken over.
    ApplyRoutes { subnets_json: Vec<u8> },
    /// A packet goes to the tunnel device.
    WriteToTun { payload: Vec<u8> },
    /// The client's certificate is checked.
    CheckCert { cert_bytes: Vec<u8> },
    /// The device's proof is checked.
    CheckEnrollment { static_pub: [u8; 32], dh_proof: [u8; 32] },
    /// The client's view of the line is noted, and answered with a level.
    NoteQuality { quality: u8, round_trip_ms: u32 },
    /// The client asks for a variant of a mask.
    PreferMask { base_mask_id: String },
    /// The client reports on masks.
    TakeFeedback { entries: Vec<MaskOutcome>, country_code: [u8; 2] },
}

/// The server's own telemetry.
pub const OWN_PACKET_LOSS: u16 = 0;

pub const OWN_RTT_MS: u16 = 10;

pub const OWN_JITTER_MS: u16 = 2;

pub const OWN_BUFFER_PCT: u8 = 25;

/// The version of the list of masks where no masks are stored.
pub const DEFAULT_CATALOG_VERSION: u64 = 1;

/// A client with this name may record.
pub open spec fn is_recording_admin(client_name: Option<String>) -> bool {
    client_name is Some && starts_with(client_name->0@, "recording-admin"@)
}

/// The version of the list of masks.
pub open spec fn current_catalog(facts: SessionFacts) -> u64 {
    match facts.catalog_version {
        Some(v) => v,
        None => DEFAULT_CATALOG_VERSION,
    }
}

/// A packet that a client of the next server sends through this one may leave: it is IPv4
/// and comes from the session's own address.
pub open spec fn may_leave(payload: Seq<u8>, facts: SessionFacts) -> bool {
    facts.exit_node_enabled && facts.has_tun && is_ipv4(payload) && facts.vpn_ip is Some
        && source_of(payload) == facts.vpn_ip->0@
}

/// What is done about a message. Messages that only a server sends are ignored.
pub open spec fn step_for(message: ControlMessage, facts: SessionFacts) -> ControlStep {
    match message {
        ControlMessage::KeyRotate { new_eph_pub } => if facts.has_pending_rekey {
            ControlStep::CommitRekey { new_eph_pub }
        } else {
            ControlStep::Ignore
        },
        ControlMessage::Keepalive { send_ts } => if facts.is_ratcheted {
            ControlStep::AckKeepalive {
                echo_ts: send_ts,
                catalog: if facts.catalog_version_sent != current_catalog(facts) {
                    Some(current_catalog(facts))
                } else {
                    None
                },
            }
        } else {
            ControlStep::ResendServerHello
        },
        ControlMessage::TelemetryRequest => ControlStep::ReplyTelemetry {
            packet_loss: OWN_PACKET_LOSS,
            rtt_ms: OWN_RTT_MS,
            jitter_ms: OWN_JITTER_MS,
            buffer_pct: OWN_BUFFER_PCT,
        },
        ControlMessage::TelemetryResponse { packet_loss, rtt_ms } => if facts.has_mask {
            ControlStep::RecordTelemetry { packet_loss, rtt_ms }
        } else {
            ControlStep::Ignore
        },
        ControlMessage::Shutdown => ControlStep::EndSession { stop_recording: facts.has_recorder },
        ControlMessage::RecordingStart { service } => if !is_recording_admin(facts.client_name) {
            ControlStep::RefuseRecording
        } else if facts.has_recorder {
            ControlStep::StartRecording { service }
        } else {
            ControlStep::Ignore
        },
        ControlMessage::RecordingStop { session_id } => if !facts.has_recorder {
            ControlStep::Ignore
        } else if session_id == facts.session_id {
            ControlStep::StopRecording
        } else {
            ControlStep::RefuseStop
        },
        ControlMessage::RecordingStatusRequest => ControlStep::ReportRecording {
            can_record: is_recording_admin(facts.client_name),
        },
        ControlMessage::PoolSync { clients_json } => if !facts.is_pool_peer {
            ControlStep::RejectPoolSync
        } else if facts.has_client_db {
            ControlStep::MergeClients { clients_json }
        } else {
            ControlStep::Ignore
        },
        ControlMessage::RouteSync { subnets_json } => if facts.is_site_peer {
            ControlStep::ApplyRoutes { subnets_json }
        } else {
            ControlStep::Ignore
        },
        ControlMessage::ChainForward { payload } => if may_leave(payload@, facts) {
            ControlStep::WriteToTun { payload }
        } else {
            ControlStep::Ignore
        },
        ControlMessage::ClientCert { cert_bytes } => if facts.mtls_enabled {
            ControlStep::CheckCert { cert_bytes }
        } else {
            ControlStep::Ignore
        },
        ControlMessage::DeviceEnrollment { static_pub, dh_proof } => if facts.has_client_db
            && facts.client_id is Some {
            ControlStep::CheckEnrollment { static_pub, dh_proof }
        } else {
            ControlStep::Ignore
        },
        ControlMessage::QualityReport { quality, rtt_ms } => ControlStep::NoteQuality {
            quality,
            round_trip_ms: rtt_ms as u32,
        },
        ControlMessage::MaskPreference { base_mask_id } => ControlStep::PreferMask { base_mask_id },
        ControlMessage::MaskFeedback { entries, country_code } => ControlStep::TakeFeedback {
            entries,
            country_code,
        },
        _ => ControlStep::Ignore,
    }
}

/// Whether a client may record: its registered name says so.
pub fn can_start_recording(client_name: &Option<String>) -> (r: bool)
    ensures
        r == is_recording_admin(*client_name),
{
    match client_name {
        Some(name) => has_prefix(name.as_str(), "recording-admin"),
        None => false,
    }
}

fn packet_may_leave(payload: &[u8], facts: &SessionFacts) -> (r: bool)
    ensures
        r == may_leave(payload@, *facts),
{
    if !facts.exit_node_enabled || !facts.has_tun {
        return false;
    }
    match (ipv4_addresses(payload), facts.vpn_ip) {
        (Some((source, _destination)), Some(ip)) => same_address(&source, &ip),
        _ => false,
    }
}

/// What is done about a message.
pub fn control_step(message: ControlMessage, facts: &SessionFacts) -> (step: ControlStep)
    ensures
        step == step_for(message, *facts),
{
    match message {
        ControlMessage::KeyRotate { new_eph_pub } => {
            if facts.has_pending_rekey {
                ControlStep::CommitRekey { new_eph_pub }
            } else {
                ControlStep::Ignore
            }
        },
        ControlMessage::Keepalive { send_ts } => {
            if !facts.is_ratcheted {
                return ControlStep::ResendServerHello;
            }
            let current: u64 = match facts.catalog_version {
                Some(v) => v,
                None => DEFAULT_CATALOG_VERSION,
            };
            ControlStep::AckKeepalive {
                echo_ts: send_ts,
                catalog: if facts.catalog_version_sent != current {
                    Some(current)
                } else {
                    None
                },
            }
        },
        ControlMessage::TelemetryRequest => ControlStep::ReplyTelemetry {
            packet_loss: OWN_PACKET_LOSS,
            rtt_ms: OWN_RTT_MS,
            jitter_ms: OWN_JITTER_MS,
            buffer_pct: OWN_BUFFER_PCT,
        },
        ControlMessage::TelemetryResponse { packet_loss, rtt_ms } => {
            if facts.has_mask {
                ControlStep::RecordTelemetry { packet_loss, rtt_ms }
            } else {
                ControlStep::Ignore
            }
        },
        ControlMessage::Shutdown => ControlStep::EndSession { stop_recording: facts.has_recorder },
        ControlMessage::RecordingStart { service } => {
            if !can_start_recording(&facts.client_name) {
                ControlStep::RefuseRecording
            } else if facts.has_recorder {
                ControlStep::StartRecording { service }
            } else {
                ControlStep::Ignore
            }
        },
        ControlMessage::RecordingStop { session_id } => {
            if !facts.has_recorder {
                ControlStep::Ignore
            } else if session_id == facts.session_id {
                ControlStep::StopRecording
            } else {
                ControlStep::RefuseStop
            }
        },
        ControlMessage::RecordingStatusRequest => ControlStep::ReportRecording {
            can_record: can_start_recording(&facts.client_name),
        },
        ControlMessage::PoolSync { clients_json } => {
            if !facts.is_pool_peer {
                ControlStep::RejectPoolSync
            } else if facts.has_client_db {
                ControlStep::MergeClients { clients_json }
            } else {
                ControlStep::Ignore
            }
        },
        ControlMessage::RouteSync { subnets_json } => {
            if facts.is_site_peer {
                ControlStep::ApplyRoutes { subnets_json }
            } else {
                ControlStep::Ignore
            }
        },
        ControlMessage::ChainForward { payload } => {
            if packet_may_leave(payload.as_slice(), facts) {
                ControlStep::WriteToTun { payload }
            } else {
                ControlStep::Ignore
            }
        },
        ControlMessage::ClientCert { cert_bytes } => {
            if facts.mtls_enabled {
                ControlStep::CheckCert { cert_bytes }
            } else {
                ControlStep::Ignore
            }
        },
        ControlMessage::DeviceEnrollment { static_pub, dh_proof } => {
            if facts.has_client_db && facts.client_id.is_some() {
                ControlStep::CheckEnrollment { static_pub, dh_proof }
            } else {
                ControlStep::Ignore
            }
        },
        ControlMessage::QualityReport { quality, rtt_ms } => ControlStep::NoteQuality {
            quality,
            round_trip_ms: rtt_ms as u32,
        },
        ControlMessage::MaskPreference { base_mask_id } => ControlStep::PreferMask { base_mask_id },
        ControlMessage::MaskFeedback { entries, country_code } => ControlStep::TakeFeedback {
            entries,
            country_code,
        },
        _ => ControlStep::Ignore,
    }
}

/// Only a server of the pool has its clients taken over.
pub proof fn only_pool_peers_are_merged(message: ControlMessage, facts: SessionFacts)
    requires
        step_for(message, facts) is MergeClients,
    ensures
        facts.is_pool_peer,
        message is PoolSync,
{
}

/// Only a recording administrator starts a recording, and only its own session stops one.
pub proof fn recordings_are_guarded(message: ControlMessage, facts: SessionFacts)
    ensures
        step_for(message, facts) is StartRecording ==> is_recording_admin(facts.client_name),
        step_for(message, facts) is StopRecording ==> message == (ControlMessage::RecordingStop {
            session_id: facts.session_id,
        }),
{
}

/// Nothing leaves through an exit server under another address than the session's own.
pub proof fn exit_packets_are_not_spoofed(message: ControlMessage, facts: SessionFacts)
    requires
        step_for(message, facts) is WriteToTun,
    ensures
        facts.exit_node_enabled,
        is_ipv4(step_for(message, facts)->payload@),
        facts.vpn_ip is Some,
        source_of(step_for(message, facts)->payload@) == facts.vpn_ip->0@,
{
}

/// A session whose first key exchange is not complete gets the greeting again, and nothing
/// else in answer to a keepalive.
pub proof fn unfinished_handshake_is_greeted_again(send_ts: u64, facts: SessionFacts)
    requires
        !facts.is_ratcheted,
    ensures
        step_for(ControlMessage::Keepalive { send_ts }, facts) == ControlStep::ResendServerHello,
{
}

/// A certificate is accepted where it is in form, is for the key of this session, and is
/// verified. What is returned is whether the session may send packets from now on.
pub fn accept_certificate(cert_key: Option<[u8; 32]>, session_key: &[u8; 32], verified: bool) -> (ok:
    bool)
    ensures
        ok == (cert_key is Some && cert_key->0@ == session_key@ && verified),
{
    match cert_key {
        Some(key) => same_key(&key, session_key) && verified,
        None => false,
    }
}

fn same_key(a: &[u8; 32], b: &[u8; 32]) -> (r: bool)
    ensures
        r == (a@ == b@),
{
    let mut i: usize = 0;
    while i < 32
        invariant
            i <= 32,
            forall|k: int| 0 <= k < i ==> a@[k] == b@[k],
        decreases 32 - i,
    {
        if a[i] != b[i] {
            return false;
        }
        i += 1;
    }
    assert(a@ =~= b@);
    true
}

/// What is done about a device that enrolls.
#[derive(Clone, Copy, PartialEq, Eq, Structural)]
pub enum EnrollmentStep {
    /// The key it gave is of no use: nothing is done.
    Ignore,
    /// Its proof is wrong: the session ends with this reason, and the audit log says so.
    Reject { reason: u8 },
    /// Its proof is right: it is bound to the client.
    Bind,
}

/// Reason for ending the session of a device with a wrong proof.
pub const REASON_BAD_PROOF: u8 = 3;

/// Reason for ending the session of a device other than the one the client is bound to.
pub const REASON_OTHER_DEVICE: u8 = 4;

/// Checks a device's proof against the shared secret that the server computes from the
/// device's key; `None` where that cannot be computed.
pub fn check_enrollment(expected: Option<[u8; 32]>, proof_bytes: &[u8; 32]) -> (step: EnrollmentStep)
    ensures
        step == (match expected {
            None => EnrollmentStep::Ignore,
            Some(secret) => if secret@ == proof_bytes@ {
                EnrollmentStep::Bind
            } else {
                EnrollmentStep::Reject { reason: REASON_BAD_PROOF }
            },
        }),
{
    match expected {
        None => EnrollmentStep::Ignore,
        Some(secret) => {
            if equal_in_constant_time(&secret, proof_bytes) {
                EnrollmentStep::Bind
            } else {
                EnrollmentStep::Reject { reason: REASON_BAD_PROOF }
            }
        },
    }
}

/// What is done once a device was to be bound: the reason for which its session ends where
/// the client is bound to another.
pub fn after_binding(bound: bool) -> (end_reason: Option<u8>)
    ensures
        end_reason == (if bound {
            None
        } else {
            Some(REASON_OTHER_DEVICE)
        }),
{
    if bound {
        None
    } else {
        Some(REASON_OTHER_DEVICE)
    }
}

/// Whether a session is moved to a variant of a mask: it does not use that variant yet, and
/// it is the session's turn.
pub fn move_to_variant(
    slots: &mut SlotTable,
    session_id: u128,
    current_mask_id: Option<&str>,
    variant_mask_id: &str,
    now: u64,
) -> (moved: bool)
    ensures
        ({
            let active = current_mask_id is Some && current_mask_id->0@ == variant_mask_id@;
            &&& moved == (!active && is_free(
                old(slots)@,
                session_id,
                now,
                MASK_PREFERENCE_THROTTLE,
            ))
            &&& final(slots)@ == (if active {
                old(slots)@
            } else {
                claimed(old(slots)@, session_id, now, MASK_PREFERENCE_THROTTLE)
            })
        }),
{
    if polymorphic_variant_already_active(current_mask_id, variant_mask_id) {
        return false;
    }
    slots.try_claim_mask_preference_slot(session_id, now)
}

/// The mask that a session's variant is made of: the configured one where it exists, else
/// the session's own.
pub fn variant_base(configured: Option<MaskProfile>, session_mask: Option<MaskProfile>) -> (base:
    Option<MaskProfile>)
    ensures
        base == (if configured is Some {
            configured
        } else {
            session_mask
        }),
{
    if configured.is_some() {
        configured
    } else {
        session_mask
    }
}

/// How clients are to report on masks.
#[derive(Clone, Copy, PartialEq, Eq, Structural)]
pub struct FeedbackRules {
    pub report_failure_threshold: u8,
    pub report_interval_secs: u32,
}

/// The answer to a report on masks.
pub struct FeedbackReply {
    /// The report was taken in.
    pub taken: bool,
    /// Recommendations, sent where there are any.
    pub hints: Vec<Hint>,
    /// How to report, where it was the session's turn to be answered.
    pub rules: Option<FeedbackRules>,
}

/// A report is taken in where it says something and its client is known.
pub open spec fn is_taken(entries: Seq<MaskOutcome>, client_id: Option<&str>) -> bool {
    entries.len() > 0 && client_id is Some
}

/// Takes in a client's report on masks, and answers it where it is the session's turn. The
/// reporter is known to the table only by a digest of its name.
pub fn handle_mask_feedback(
    store: &mut MaskFeedbackStore,
    slots: &mut SlotTable,
    session_id: u128,
    client_id: Option<&str>,
    entries: &[MaskOutcome],
    country_code: [u8; 2],
    rules: FeedbackRules,
    hour: u64,
    now: u64,
) -> (reply: FeedbackReply)
    requires
        old(store).well_formed(),
    ensures
        ({
            let votes = tally(read_part(outcomes_view(entries@)));
            let taken = is_taken(entries@, client_id);
            let answered = is_free(old(slots)@, session_id, now, MASK_FEEDBACK_THROTTLE);
            let buckets = if taken {
                cast_all(
                    old(store).buckets@,
                    country_code@,
                    votes,
                    old(store).salted(blake3_digest(encode_utf8(client_id->0@))),
                    hour as nat,
                )
            } else {
                old(store).buckets@
            };
            let cache = if taken && votes.len() > 0 {
                dropped(cache_view(old(store).hints_cache@), rollup_of(country_code@))
            } else {
                cache_view(old(store).hints_cache@)
            };
            &&& reply.taken == taken
            &&& final(store).buckets@ == buckets
            &&& final(slots)@ == claimed(old(slots)@, session_id, now, MASK_FEEDBACK_THROTTLE)
            &&& reply.rules == (if answered {
                Some(rules)
            } else {
                None
            })
            &&& !answered ==> reply.hints@.len() == 0 && cache_view(final(store).hints_cache@)
                == cache
            &&& answered ==> match cached(cache, country_code@, now) {
                Some(kept) => hints_view(reply.hints@) == kept && cache_view(
                    final(store).hints_cache@,
                ) == cache,
                None => is_hints(
                    hints_view(reply.hints@),
                    buckets.countries,
                    old(store).k_anon as nat,
                    country_code@,
                ) && cache_view(final(store).hints_cache@) == dropped(
                    cache,
                    seq![country_code@],
                ).push(
                    CacheView {
                        code: country_code@,
                        computed_at: now,
                        hints: hints_view(reply.hints@),
                    },
                ),
            }
        }),
        reply.hints@.len() == 0 || is_gated(
            hints_view(reply.hints@),
            old(store).k_anon as nat,
            country_code@,
        ),
        final(store).well_formed(),
        final(store).k_anon == old(store).k_anon,
        final(store).salt() == old(store).salt(),
{
    let mut taken: bool = false;
    if entries.len() > 0 {
        match client_id {
            Some(id) => {
                let token: [u8; 32] = blake3_hash(id.as_bytes());
                store.record_feedback(country_code, token.as_slice(), entries, hour);
                taken = true;
            },
            None => {},
        }
    }
    if !slots.try_claim_mask_feedback_slot(session_id, now) {
        return FeedbackReply { taken, hints: Vec::new(), rules: None };
    }
    let hints: Vec<Hint> = store.top_masks_for_region(country_code, now);
    FeedbackReply { taken, hints, rules: Some(rules) }
}

/// A mask as clients see it in the list of masks.
pub struct CatalogEntry {
    pub mask_id: String,
    pub generated: bool,
}

/// The view of the list of masks.
pub open spec fn entries_view(entries: Seq<CatalogEntry>) -> Seq<(Seq<char>, bool)> {
    entries.map_values(|e: CatalogEntry| (e.mask_id@, e.generated))
}

/// An id is in the list.
pub open spec fn is_listed(entries: Seq<(Seq<char>, bool)>, id: Seq<char>) -> bool {
    exists|i: int| 0 <= i < entries.len() && (#[trigger] entries[i]).0 == id
}

/// A list with more masks behind it, each id once: the first to come is kept.
pub open spec fn with_masks(
    entries: Seq<(Seq<char>, bool)>,
    masks: Seq<(Seq<char>, bool)>,
) -> Seq<(Seq<char>, bool)>
    decreases masks.len(),
{
    if masks.len() == 0 {
        entries
    } else {
        let before = with_masks(entries, masks.drop_last());
        if is_listed(before, masks.last().0) {
            before
        } else {
            before.push(masks.last())
        }
    }
}

/// Ids and origins of masks.
pub open spec fn mask_marks(masks: Seq<MaskProfile>) -> Seq<(Seq<char>, bool)> {
    masks.map_values(|m: MaskProfile| (m.mask_id@, m.generated))
}

fn add_masks(entries: &mut Vec<CatalogEntry>, masks: &Vec<MaskProfile>)
    ensures
        entries_view(final(entries)@) == with_masks(entries_view(old(entries)@), mask_marks(masks@)),
{
    let ghost start = entries_view(entries@);
    let ghost marks = mask_marks(masks@);
    let mut i: usize = 0;
    assert(marks.take(0) =~= seq![]);
    while i < masks.len()
        invariant
            i <= masks.len(),
            marks == mask_marks(masks@),
            entries_view(entries@) == with_masks(start, marks.take(i as int)),
        decreases masks.len() - i,
    {
        let ghost here = entries_view(entries@);
        let mut known: bool = false;
        let mut k: usize = 0;
        while k < entries.len() && !known
            invariant
                k <= entries.len(),
                i < masks.len(),
                here == entries_view(entries@),
                known ==> is_listed(here, masks@[i as int].mask_id@),
                !known ==> forall|j: int|
                    0 <= j < k ==> (#[trigger] here[j]).0 != masks@[i as int].mask_id@,
            decreases entries.len() - k,
        {
            assert(here[k as int] == (entries@[k as int].mask_id@, entries@[k as int].generated));
            if entries[k].mask_id == masks[i].mask_id {
                known = true;
                assert(here[k as int].0 == masks@[i as int].mask_id@);
            }
            k += 1;
        }
        assert(marks.take(i + 1).drop_last() =~= marks.take(i as int));
        assert(marks[i as int] == (masks@[i as int].mask_id@, masks@[i as int].generated));
        if !known {
            entries.push(
                CatalogEntry { mask_id: masks[i].mask_id.clone(), generated: masks[i].generated },
            );
            assert(entries_view(entries@) =~= here.push(marks[i as int]));
        }
        i += 1;
    }
    assert(marks.take(i as int) =~= marks);
}

/// The list of masks that clients choose from: the built-in ones, then the stored ones, each
/// id once.
pub fn build_mask_catalog_payload(presets: &Vec<MaskProfile>, stored: &Vec<MaskProfile>) -> (list:
    Vec<CatalogEntry>)
    ensures
        entries_view(list@) == with_masks(
            with_masks(seq![], mask_marks(presets@)),
            mask_marks(stored@),
        ),
{
    let mut list: Vec<CatalogEntry> = Vec::new();
    assert(entries_view(list@) =~= seq![]);
    add_masks(&mut list, presets);
    add_masks(&mut list, stored);
    list
}

/// Every mask is in the list, and no id is in it twice.
pub proof fn list_names_every_mask_once(
    entries: Seq<(Seq<char>, bool)>,
    masks: Seq<(Seq<char>, bool)>,
)
    requires
        forall|i: int, j: int|
            0 <= i < j < entries.len() ==> (#[trigger] entries[i]).0 != (#[trigger] entries[j]).0,
    ensures
        ({
            let list = with_masks(entries, masks);
            &&& forall|i: int, j: int|
                0 <= i < j < list.len() ==> (#[trigger] list[i]).0 != (#[trigger] list[j]).0
            &&& forall|i: int| 0 <= i < masks.len() ==> is_listed(list, (#[trigger] masks[i]).0)
            &&& entries.is_prefix_of(list)
        }),
    decreases masks.len(),
{
    if masks.len() > 0 {
        let rest = masks.drop_last();
        list_names_every_mask_once(entries, rest);
        let before = with_masks(entries, rest);
        let list = with_masks(entries, masks);
        assert forall|i: int| 0 <= i < masks.len() implies is_listed(
            list,
            (#[trigger] masks[i]).0,
        ) by {
            if i < rest.len() {
                assert(rest[i] == masks[i]);
                let k = choose|k: int| 0 <= k < before.len() && (#[trigger] before[k]).0
                    == masks[i].0;
                assert(list[k] == before[k]);
            } else if !is_listed(before, masks.last().0) {
                assert(list[before.len() as int].0 == masks[i].0);
            }
        }
        if !is_listed(before, masks.last().0) {
            assert forall|i: int, j: int| 0 <= i < j < list.len() implies (#[trigger] list[i]).0
                != (#[trigger] list[j]).0 by {
                if j == before.len() {
                    assert(before[i] == list[i]);
                } else {
                    assert(before[i] == list[i] && before[j] == list[j]);
                }
            }
        }
        assert(entries =~= list.take(entries.len() as int));
    } else {
        assert(entries =~= entries.take(entries.len() as int));
    }
}

/// Why a recording came to nothing.
#[derive(Clone, Copy, PartialEq, Eq, Structural)]
pub enum StopReason {
    Requested,
    IdleTimeout,
    SessionEnded,
}

/// How a recording ended.
#[derive(Clone, Copy, PartialEq, Eq, Structural)]
pub enum RecordingEnd {
    Completed,
    Incomplete(StopReason),
    NotFound,
}

/// What a client is told when its recording ends.
#[derive(Clone, Copy)]
pub enum RecordingNotice {
    /// The recording is worked on.
    Ack { status: &'static str },
    /// The recording came to nothing.
    Failed { reason: &'static str },
    /// Nothing.
    Silent,
}

/// The text for a recording that came to nothing.
pub open spec fn failure_text(reason: StopReason) -> Seq<char> {
    match reason {
        StopReason::IdleTimeout => {
            "Recording stopped after idle timeout before enough traffic was captured"@
        },
        StopReason::SessionEnded => {
            "Recording ended with the session before enough traffic was captured"@
        },
        StopReason::Requested => "Too few packets or too short duration"@,
    }
}

/// What the client is told when its recording ends, where it can be told anything.
pub fn recording_notice(end: RecordingEnd, reachable: bool) -> (notice: RecordingNotice)
    ensures
        match notice {
            RecordingNotice::Ack { status } => reachable && end == RecordingEnd::Completed
                && status@ == "analyzing"@,
            RecordingNotice::Failed { reason } => reachable && end is Incomplete && reason@
                == failure_text(end->0),
            RecordingNotice::Silent => !reachable || end == RecordingEnd::NotFound,
        },
{
    if !reachable {
        return RecordingNotice::Silent;
    }
    match end {
        RecordingEnd::Completed => RecordingNotice::Ack { status: "analyzing" },
        RecordingEnd::Incomplete(StopReason::IdleTimeout) => RecordingNotice::Failed {
            reason: "Recording stopped after idle timeout before enough traffic was captured",
        },
        RecordingEnd::Incomplete(StopReason::SessionEnded) => RecordingNotice::Failed {
            reason: "Recording ended with the session before enough traffic was captured",
        },
        RecordingEnd::Incomplete(StopReason::Requested) => RecordingNotice::Failed {
            reason: "Too few packets or too short duration",
        },
        RecordingEnd::NotFound => RecordingNotice::Silent,
    }
}

/// Whether a completed recording is turned into a mask.
pub fn makes_mask(end: RecordingEnd) -> (r: bool)
    ensures
        r == (end == RecordingEnd::Completed),
{
    match end {
        RecordingEnd::Completed => true,
        _ => false,
    }
}

/// What a client is told once its recording was worked on.
pub enum MaskNotice {
    /// The recording became a mask.
    Complete { service: String, mask_id: String },
    /// No mask came of it.
    Failed { reason: String },
    /// Nothing.
    Silent,
}

/// What the client is told once its recording was worked on, where its session still stands:
/// the mask that was `made`, or why there is none.
pub fn mask_notice(service: String, made: Result<String, String>, reachable: bool) -> (notice:
    MaskNotice)
    ensures
        match notice {
            MaskNotice::Complete { service: s, mask_id } => reachable && made is Ok && s@
                == service@ && mask_id@ == made->Ok_0@,
            MaskNotice::Failed { reason } => reachable && made is Err && reason@ == made->Err_0@,
            MaskNotice::Silent => !reachable,
        },
{
    if !reachable {
        return MaskNotice::Silent;
    }
    match made {
        Ok(mask_id) => MaskNotice::Complete { service, mask_id },
        Err(reason) => MaskNotice::Failed { reason },
    }
}

/// What a client is told that may not record.
pub const RECORDING_NEEDS_ADMIN: &'static str = "Recording requires a recording-admin key";

/// What a client is told that asks for the end of another's recording.
pub const RECORDING_OF_ANOTHER: &'static str = "Recording session does not belong to this client";

/// What a client is told whose recording starts.
pub const RECORDING_STARTED: &'static str = "started";

/// Something that is written to the audit log.
#[derive(Clone, Copy, PartialEq, Eq, Structural)]
pub enum AuditEvent {
    RecordingStart,
    RecordingStop,
    PoolSyncRejected,
    CertAccepted,
    CertRejected,
    EnrollmentRejected,
    OtherDevice,
}

/// The action and the outcome that the audit log names.
pub open spec fn audit_text(event: AuditEvent) -> (Seq<char>, Seq<char>) {
    match event {
        AuditEvent::RecordingStart => ("RecordingStart"@, "ok"@),
        AuditEvent::RecordingStop => ("RecordingStop"@, "ok"@),
        AuditEvent::PoolSyncRejected => ("PoolSync"@, "rejected: not a pool peer"@),
        AuditEvent::CertAccepted => ("ClientCert"@, "accepted"@),
        AuditEvent::CertRejected => ("ClientCert"@, "rejected"@),
        AuditEvent::EnrollmentRejected => ("device_enrollment_rejected"@, "denied"@),
        AuditEvent::OtherDevice => ("device_binding_mismatch"@, "denied"@),
    }
}

/// The action and the outcome that the audit log names.
pub fn audit_entry(event: AuditEvent) -> (entry: (&'static str, &'static str))
    ensures
        (entry.0@, entry.1@) == audit_text(event),
{
    match event {
        AuditEvent::RecordingStart => ("RecordingStart", "ok"),
        AuditEvent::RecordingStop => ("RecordingStop", "ok"),
        AuditEvent::PoolSyncRejected => ("PoolSync", "rejected: not a pool peer"),
        AuditEvent::CertAccepted => ("ClientCert", "accepted"),
        AuditEvent::CertRejected => ("ClientCert", "rejected"),
        AuditEvent::EnrollmentRejected => ("device_enrollment_rejected", "denied"),
        AuditEvent::OtherDevice => ("device_binding_mismatch", "denied"),
    }
}

/// A stand-in for an address in logs: the first four bytes of a digest of its text, in
/// hexadecimal.
pub fn hash_addr(addr: &str) -> (text: String)
    ensures
        text@ == hex_text(blake3_digest(encode_utf8(addr@)).take(4)),
{
    let digest: [u8; 32] = blake3_hash(addr.as_bytes());
    let first: [u8; 4] = [digest[0], digest[1], digest[2], digest[3]];
    assert(first@ =~= digest@.take(4));
    let mut text: String = String::new();
    push_hex(&mut text, first.as_slice());
    text
}

/// What the audit log says of a recording that starts.
pub fn recording_audit(service: &str, addr: &str) -> (text: String)
    ensures
        text@ == "service="@ + service@ + " peer="@ + hex_text(
            blake3_digest(encode_utf8(addr@)).take(4),
        ),
{
    let mut text: String = String::new();
    push_text(&mut text, "service=");
    push_text(&mut text, service);
    push_text(&mut text, " peer=");
    let peer: String = hash_addr(addr);
    push_text(&mut text, peer.as_str());
    text
}

/// A client that leaves always has its session ended, and the session's recording stopped
/// exactly where recordings are made; nothing else ends a session.
pub proof fn leaving_ends_the_session(message: ControlMessage, facts: SessionFacts)
    ensures
        step_for(ControlMessage::Shutdown, facts) == (ControlStep::EndSession {
            stop_recording: facts.has_recorder,
        }),
        step_for(message, facts) is EndSession ==> message == ControlMessage::Shutdown,
{
}

/// New keys come into use exactly where the client answers an exchange that the server began,
/// and they are the client's.
pub proof fn rekey_is_committed_when_one_is_pending(
    message: ControlMessage,
    key: [u8; 32],
    facts: SessionFacts,
)
    ensures
        facts.has_pending_rekey ==> step_for(
            ControlMessage::KeyRotate { new_eph_pub: key },
            facts,
        ) == (ControlStep::CommitRekey { new_eph_pub: key }),
        !facts.has_pending_rekey ==> step_for(
            ControlMessage::KeyRotate { new_eph_pub: key },
            facts,
        ) == ControlStep::Ignore,
        step_for(message, facts) is CommitRekey ==> message is KeyRotate
            && facts.has_pending_rekey,
{
}

/// A keepalive of a session whose key exchange is complete is answered with its own time; the
/// list of masks goes with the answer exactly where the version that the client was sent last
/// is not the current one, which is the first where no masks are stored.
pub proof fn keepalive_is_answered(send_ts: u64, facts: SessionFacts)
    requires
        facts.is_ratcheted,
    ensures
        match step_for(ControlMessage::Keepalive { send_ts }, facts) {
            ControlStep::AckKeepalive { echo_ts, catalog } => {
                let current = if facts.catalog_version is Some {
                    facts.catalog_version->0
                } else {
                    1
                };
                &&& echo_ts == send_ts
                &&& facts.catalog_version_sent == current <==> catalog is None
                &&& facts.catalog_version_sent != current <==> catalog == Some(current)
            },
            _ => false,
        },
{
}

/// A client that asks for the server's telemetry gets it, the same for everyone; a client's own
/// is noted as it is where its session has a mask to note it for.
pub proof fn telemetry_is_answered_and_noted(packet_loss: u16, rtt_ms: u16, facts: SessionFacts)
    ensures
        step_for(ControlMessage::TelemetryRequest, facts) == (ControlStep::ReplyTelemetry {
            packet_loss: 0,
            rtt_ms: 10,
            jitter_ms: 2,
            buffer_pct: 25,
        }),
        ({
            let step = step_for(ControlMessage::TelemetryResponse { packet_loss, rtt_ms }, facts);
            &&& facts.has_mask ==> step == (ControlStep::RecordTelemetry { packet_loss, rtt_ms })
            &&& !facts.has_mask ==> step == ControlStep::Ignore
        }),
{
}

/// A recording starts for a client whose registered name begins with `recording-admin`, where
/// recordings are made; any other client is refused. It stops when the session it is of asks for
/// it, and another session is refused. Any client may ask whether it may record.
pub proof fn recordings_start_and_stop_as_asked(
    service: String,
    session_id: u128,
    facts: SessionFacts,
)
    ensures
        ({
            let admin = match facts.client_name {
                Some(name) => name@.len() >= 15 && name@.take(15) == "recording-admin"@,
                None => false,
            };
            let started = step_for(ControlMessage::RecordingStart { service }, facts);
            let stopped = step_for(ControlMessage::RecordingStop { session_id }, facts);
            &&& !admin ==> started == ControlStep::RefuseRecording
            &&& admin && facts.has_recorder ==> started == (ControlStep::StartRecording {
                service,
            })
            &&& admin && !facts.has_recorder ==> started == ControlStep::Ignore
            &&& !facts.has_recorder ==> stopped == ControlStep::Ignore
            &&& facts.has_recorder && session_id == facts.session_id ==> stopped
                == ControlStep::StopRecording
            &&& facts.has_recorder && session_id != facts.session_id ==> stopped
                == ControlStep::RefuseStop
            &&& step_for(ControlMessage::RecordingStatusRequest, facts) == (
            ControlStep::ReportRecording { can_record: admin })
        }),
{
    reveal_strlit("recording-admin");
}

/// What a peer server sends is taken over as it is: clients from a server of the pool, where
/// there is a registry to take them, and routes from another site. Clients from anyone else are
/// refused, and routes passed over.
pub proof fn peers_are_synchronised(
    clients_json: Vec<u8>,
    subnets_json: Vec<u8>,
    facts: SessionFacts,
)
    ensures
        ({
            let merged = step_for(ControlMessage::PoolSync { clients_json }, facts);
            let routed = step_for(ControlMessage::RouteSync { subnets_json }, facts);
            &&& !facts.is_pool_peer ==> merged == ControlStep::RejectPoolSync
            &&& facts.is_pool_peer && facts.has_client_db ==> merged == (
            ControlStep::MergeClients { clients_json })
            &&& facts.is_pool_peer && !facts.has_client_db ==> merged == ControlStep::Ignore
            &&& facts.is_site_peer ==> routed == (ControlStep::ApplyRoutes { subnets_json })
            &&& !facts.is_site_peer ==> routed == ControlStep::Ignore
        }),
{
}

/// A packet that another server passes on leaves here, unchanged, exactly where this is an exit
/// with a device, and the packet is IPv4 and comes from the session's own address.
pub proof fn chained_packet_leaves_here(payload: Vec<u8>, facts: SessionFacts)
    ensures
        ({
            let step = step_for(ControlMessage::ChainForward { payload }, facts);
            let own = facts.vpn_ip matches Some(ip) && payload@[12] == ip[0] && payload@[13]
                == ip[1] && payload@[14] == ip[2] && payload@[15] == ip[3];
            let leaves = facts.exit_node_enabled && facts.has_tun && payload@.len() >= 20 && 64
                <= payload@[0] <= 79 && own;
            &&& leaves ==> step == (ControlStep::WriteToTun { payload })
            &&& !leaves ==> step == ControlStep::Ignore
        }),
{
    if payload@.len() >= 20 && facts.vpn_ip is Some {
        let ip = facts.vpn_ip->0;
        let source = source_of(payload@);
        assert(source[0] == payload@[12] && source[1] == payload@[13] && source[2] == payload@[14]
            && source[3] == payload@[15]);
        if source[0] == ip@[0] && source[1] == ip@[1] && source[2] == ip@[2] && source[3]
            == ip@[3] {
            assert(source =~= ip@);
        }
    }
}

/// A certificate is checked where certificates are asked for, and a device's proof where its
/// client is registered; else neither is looked at.
pub proof fn credentials_are_checked_where_they_count(
    cert_bytes: Vec<u8>,
    static_pub: [u8; 32],
    dh_proof: [u8; 32],
    facts: SessionFacts,
)
    ensures
        ({
            let cert = step_for(ControlMessage::ClientCert { cert_bytes }, facts);
            let device = step_for(ControlMessage::DeviceEnrollment { static_pub, dh_proof }, facts);
            let registered = facts.has_client_db && facts.client_id is Some;
            &&& facts.mtls_enabled ==> cert == (ControlStep::CheckCert { cert_bytes })
            &&& !facts.mtls_enabled ==> cert == ControlStep::Ignore
            &&& registered ==> device == (ControlStep::CheckEnrollment { static_pub, dh_proof })
            &&& !registered ==> device == ControlStep::Ignore
        }),
{
}

/// What a client says of its line, asks for as a mask, or reports on masks is always taken up,
/// word for word.
pub proof fn wishes_and_reports_are_taken_up(
    quality: u8,
    rtt_ms: u16,
    base_mask_id: String,
    entries: Vec<MaskOutcome>,
    country_code: [u8; 2],
    facts: SessionFacts,
)
    ensures
        match step_for(ControlMessage::QualityReport { quality, rtt_ms }, facts) {
            ControlStep::NoteQuality { quality: q, round_trip_ms } => q == quality && round_trip_ms
                == rtt_ms,
            _ => false,
        },
        step_for(ControlMessage::MaskPreference { base_mask_id }, facts) == (
        ControlStep::PreferMask { base_mask_id }),
        step_for(ControlMessage::MaskFeedback { entries, country_code }, facts) == (
        ControlStep::TakeFeedback { entries, country_code }),
{
}

/// Messages that only a server sends change nothing when a client sends them.
pub proof fn server_messages_from_clients_change_nothing(message: ControlMessage, facts: SessionFacts)
    requires
        message is MaskUpdate || message is TimeSync || message is ControlAck
            || message is ServerHello || message is RecordingAck || message is RecordingComplete
            || message is RecordingFailed || message is RecordingStatus
            || message is BootstrapDescriptorUpdate || message is CertRejected
            || message is KeepaliveAck || message is AdaptiveHint || message is RegionalMaskHints
            || message is MaskCatalog || message is FeedbackConfig,
    ensures
        step_for(message, facts) == ControlStep::Ignore,
{
}

/// A report is taken in exactly where it names a mask and comes from a known client.
pub proof fn report_with_a_client_is_taken(entries: Seq<MaskOutcome>, client: &str)
    ensures
        is_taken(entries, Some(client)) <==> entries.len() > 0,
        !is_taken(entries, None),
{
}

/// Nothing is in the list of masks that was not in it before or among those added, and a mask
/// that was added keeps the origin that it has where its id comes first.
pub proof fn list_holds_nothing_else(
    entries: Seq<(Seq<char>, bool)>,
    masks: Seq<(Seq<char>, bool)>,
    k: int,
)
    requires
        0 <= k < with_masks(entries, masks).len(),
    ensures
        ({
            let list = with_masks(entries, masks);
            &&& k < entries.len() ==> list[k] == entries[k]
            &&& k >= entries.len() ==> exists|i: int|
                {
                    &&& 0 <= i < masks.len()
                    &&& #[trigger] masks[i] == list[k]
                    &&& forall|j: int| 0 <= j < i ==> (#[trigger] masks[j]).0 != list[k].0
                    &&& forall|j: int|
                        0 <= j < entries.len() ==> (#[trigger] entries[j]).0 != list[k].0
                }
        }),
    decreases masks.len(),
{
    if masks.len() > 0 {
        let rest = masks.drop_last();
        let before = with_masks(entries, rest);
        let list = with_masks(entries, masks);
        lemma_list_starts_with(entries, rest);
        if k < before.len() {
            list_holds_nothing_else(entries, rest, k);
            if k >= entries.len() {
                let i = choose|i: int|
                    {
                        &&& 0 <= i < rest.len()
                        &&& #[trigger] rest[i] == before[k]
                        &&& forall|j: int| 0 <= j < i ==> (#[trigger] rest[j]).0 != before[k].0
                        &&& forall|j: int|
                            0 <= j < entries.len() ==> (#[trigger] entries[j]).0 != before[k].0
                    };
                assert(masks[i] == list[k]);
                assert forall|j: int| 0 <= j < i implies (#[trigger] masks[j]).0 != list[k].0 by {
                    assert(rest[j] == masks[j]);
                }
            }
        } else {
            let last = masks.len() - 1;
            assert(masks[last] == list[k]);
            assert forall|j: int| 0 <= j < last implies (#[trigger] masks[j]).0 != list[k].0 by {
                assert(rest[j] == masks[j]);
                lemma_added_is_listed(entries, rest, j);
            }
            assert forall|j: int| 0 <= j < entries.len() implies (#[trigger] entries[j]).0
                != list[k].0 by {
                assert(before[j] == entries[j]);
            }
        }
    }
}

proof fn lemma_list_starts_with(entries: Seq<(Seq<char>, bool)>, masks: Seq<(Seq<char>, bool)>)
    ensures
        entries.len() <= with_masks(entries, masks).len(),
        forall|j: int|
            0 <= j < entries.len() ==> #[trigger] with_masks(entries, masks)[j] == entries[j],
    decreases masks.len(),
{
    if masks.len() > 0 {
        lemma_list_starts_with(entries, masks.drop_last());
    }
}

proof fn lemma_added_is_listed(
    entries: Seq<(Seq<char>, bool)>,
    masks: Seq<(Seq<char>, bool)>,
    i: int,
)
    requires
        0 <= i < masks.len(),
    ensures
        is_listed(with_masks(entries, masks), masks[i].0),
    decreases masks.len(),
{
    let rest = masks.drop_last();
    let before = with_masks(entries, rest);
    let list = with_masks(entries, masks);
    if i < rest.len() {
        lemma_added_is_listed(entries, rest, i);
        assert(rest[i] == masks[i]);
        let k = choose|k: int| 0 <= k < before.len() && (#[trigger] before[k]).0 == masks[i].0;
        assert(list[k] == before[k]);
    } else if !is_listed(before, masks.last().0) {
        assert(list[before.len() as int].0 == masks[i].0);
    }
}

} // verus!
