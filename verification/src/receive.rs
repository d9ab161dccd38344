//! The way of a packet from the network to the session it belongs to, one step at a time.
//!
//! The session table, the ciphers and the list of clients live elsewhere. [`Receiving`] says
//! what to do with them next, and is told what came of it, until the packet is delivered or
//! given up.

use crate::ingress::{
    admit_handshake, admitted, after_candidate, after_uplink, after_unmatched, billed_uplink,
    candidate_of, check_packet_length, choose_key, compute_nonce, effects_of, first_inside,
    first_offset_inside_is_taken, handshake_candidate, key_for, next_payload_offset, nonce_of,
    padding_is_taken_off_as_announced, payload_offsets, payload_offsets_of, receive_effects, session_layout, session_layout_of, strip_padding,
    unmatched_handshake, unpadded, Admission, CandidateAction, CandidateOutcome, KeyChoice,
    PacketError, PacketStanding, ReceiveEffects, SessionLayout, TrafficCounters, EPH_PUB_LEN,
    MIN_PACKET_LEN,
};
use crate::layout::{
    candidate_tags, handshake_header_len, tags_at, tags_view, MaskProfile, MaskView,
};
use crate::session_lookup::{
    find_existing_session, lookup_next, lookup_start, start_lookup, LookupAnswer, LookupOutcome,
    LookupStep,
};
use crate::throttle::{
    charged, cooling_down, CounterTable, ScanBudget, MAX_FALLBACK_SCANS_PER_SEC,
};
use vstd::prelude::*;

verus! {

/// What all packets share: who must wait, and how many scans are left.
pub struct Guards {
    pub cooldowns: CounterTable,
    pub fallback: ScanBudget,
    pub handshake: ScanBudget,
}

/// The view of [`Guards`].
pub struct GuardsView {
    pub cooldowns: Map<u128, (u64, u64)>,
    pub fallback: ScanBudget,
    pub handshake: ScanBudget,
}

impl View for Guards {
    type V = GuardsView;

    open spec fn view(&self) -> GuardsView {
        GuardsView {
            cooldowns: self.cooldowns@,
            fallback: self.fallback,
            handshake: self.handshake,
        }
    }
}

impl Guards {
    /// Nobody waits, and no scan has been made.
    pub fn new(now: u64) -> (guards: Guards)
        ensures
            guards@ == (GuardsView {
                cooldowns: Map::empty(),
                fallback: ScanBudget { count: 0, since: now },
                handshake: ScanBudget { count: 0, since: now },
            }),
    {
        Guards {
            cooldowns: CounterTable::new(),
            fallback: ScanBudget::new(now),
            handshake: ScanBudget::new(now),
        }
    }
}

/// What is known of a session when a packet for it is opened.
pub struct SessionReading {
    pub is_cluster_peer: bool,
    pub cluster_header_len: usize,
    pub mask: Option<MaskProfile>,
    pub session_ratcheted: bool,
    pub has_ratcheted_keys: bool,
    /// Where the payload starts if the packet has a QUIC header.
    pub quic: Option<usize>,
    pub has_kernel: bool,
    pub from_other_address: bool,
    pub window_base: u64,
    pub checks_masks: bool,
    pub traffic: TrafficCounters,
    pub has_client: bool,
}

/// What came of the last thing that was to be done.
pub enum Event {
    /// The session table's answer.
    Answer(LookupAnswer),
    /// Whether another handshake from the address is in progress, and how many sessions there
    /// are.
    Slot { in_progress: bool, session_count: usize },
    /// The next mask that a handshake may have come under; `None` where there is none left.
    Candidate(Option<MaskProfile>),
    /// Whether the tag can be right for the key.
    Prechecked(bool),
    /// Whether a session was created.
    Created(bool),
    /// Whether the new session accepts the handshake's tag.
    HandshakeTag(bool),
    /// The session was taken back.
    RolledBack,
    /// The counter of the tag in the new session, and whether it comes from the keys that
    /// replace the first ones; `None` where the session does not know the tag.
    NewTag(Option<(u64, bool)>),
    /// Whether the client of the new session was greeted.
    Established(bool),
    /// The session.
    Session(SessionReading),
    /// What was decrypted; `None` where nothing could be.
    Opened(Option<Vec<u8>>),
    /// The session's first keys were replaced.
    Ratcheted,
    /// The packet was accounted for.
    Accounted,
}

/// What to do next.
pub enum Action {
    /// Put a question about one of the packet's tags to the session table.
    Ask(LookupStep),
    /// Try to be the only one to handle a handshake from the address, and count the sessions.
    TakeSlot,
    /// Fetch the next mask that the handshake may have come under.
    NextCandidate,
    /// Check whether the tag can be right for the key, which is as it stands in the packet.
    Precheck { tag: [u8; 8], eph_pub: [u8; 32] },
    /// Create a session for the key that was checked last.
    Create,
    /// Ask the new session whether it accepts the tag.
    CheckHandshakeTag { tag: [u8; 8] },
    /// Take the new session back.
    RollBack,
    /// Ask the new session for the counter of the tag.
    CheckTag { tag: [u8; 8] },
    /// Give the new session its client and its mask, end older sessions of the client, and
    /// greet it.
    Establish,
    /// Read the session.
    ReadSession,
    /// Decrypt the packet from the offset on.
    Open { key: KeyChoice, nonce: [u8; 12], offset: usize },
    /// Replace the session's first keys, and give the session to the kernel if told to.
    CompleteRatchet { install_kernel: bool },
    /// Account for the packet: what follows from it, the session's new counts, and what is
    /// billed.
    Account { effects: ReceiveEffects, traffic: TrafficCounters, flush: Option<(u64, u64)> },
    /// Act on what the packet holds. Nothing follows.
    Deliver { body: Vec<u8> },
    /// Nothing is left to do.
    Finish,
    /// Refuse the packet.
    Fail(PacketError),
    /// Refuse the packet with the error of the last thing that was done.
    PassOn,
}

/// The view of [`Action`].
pub enum ActionView {
    Ask(LookupStep),
    TakeSlot,
    NextCandidate,
    Precheck { tag: Seq<u8>, eph_pub: Seq<u8> },
    Create,
    CheckHandshakeTag { tag: Seq<u8> },
    RollBack,
    CheckTag { tag: Seq<u8> },
    Establish,
    ReadSession,
    Open { key: KeyChoice, nonce: Seq<u8>, offset: usize },
    CompleteRatchet { install_kernel: bool },
    Account { effects: ReceiveEffects, traffic: TrafficCounters, flush: Option<(u64, u64)> },
    Deliver { body: Seq<u8> },
    Finish,
    Fail(PacketError),
    PassOn,
}

impl View for Action {
    type V = ActionView;

    open spec fn view(&self) -> ActionView {
        match *self {
            Action::Ask(step) => ActionView::Ask(step),
            Action::TakeSlot => ActionView::TakeSlot,
            Action::NextCandidate => ActionView::NextCandidate,
            Action::Precheck { tag, eph_pub } => ActionView::Precheck {
                tag: tag@,
                eph_pub: eph_pub@,
            },
            Action::Create => ActionView::Create,
            Action::CheckHandshakeTag { tag } => ActionView::CheckHandshakeTag { tag: tag@ },
            Action::RollBack => ActionView::RollBack,
            Action::CheckTag { tag } => ActionView::CheckTag { tag: tag@ },
            Action::Establish => ActionView::Establish,
            Action::ReadSession => ActionView::ReadSession,
            Action::Open { key, nonce, offset } => ActionView::Open { key, nonce: nonce@, offset },
            Action::CompleteRatchet { install_kernel } => ActionView::CompleteRatchet {
                install_kernel,
            },
            Action::Account { effects, traffic, flush } => ActionView::Account {
                effects,
                traffic,
                flush,
            },
            Action::Deliver { body } => ActionView::Deliver { body: body@ },
            Action::Finish => ActionView::Finish,
            Action::Fail(e) => ActionView::Fail(e),
            Action::PassOn => ActionView::PassOn,
        }
    }
}

/// A packet that is being opened: where its payload is looked for, and what follows once it
/// is found.
pub struct Opening {
    pub counter: u64,
    pub key: KeyChoice,
    pub offsets: Vec<usize>,
    pub at: usize,
    pub effects: ReceiveEffects,
    pub traffic: TrafficCounters,
    pub flush: Option<(u64, u64)>,
}

/// The view of [`Opening`].
pub struct OpeningView {
    pub counter: u64,
    pub key: KeyChoice,
    pub offsets: Seq<usize>,
    pub at: usize,
    pub effects: ReceiveEffects,
    pub traffic: TrafficCounters,
    pub flush: Option<(u64, u64)>,
}

impl View for Opening {
    type V = OpeningView;

    open spec fn view(&self) -> OpeningView {
        OpeningView {
            counter: self.counter,
            key: self.key,
            offsets: self.offsets@,
            at: self.at,
            effects: self.effects,
            traffic: self.traffic,
            flush: self.flush,
        }
    }
}

/// What a packet is waiting for.
pub enum Phase {
    /// An answer of the session table.
    Lookup(LookupStep),
    /// Its turn among the handshakes from its address.
    Slot,
    /// The next mask.
    Candidate,
    /// The check of tag and key.
    Precheck { tag: [u8; 8] },
    /// A new session.
    Create { tag: [u8; 8] },
    /// The new session's word on the handshake's tag.
    HandshakeTag { tag: [u8; 8] },
    /// The end of the new session. `known` tells whether that session had accepted the
    /// handshake.
    RollBack { known: bool },
    /// The counter of the tag.
    NewTag,
    /// The greeting of the client.
    Establish { counter: u64, ratcheted: bool },
    /// The session.
    Session { counter: u64, ratcheted: bool, is_new: bool },
    /// Decryption.
    Open(Opening),
    /// The replacement of the session's keys; these bytes were decrypted.
    Ratchet { bytes: Vec<u8>, opening: Opening },
    /// The accounting; this is what the packet holds.
    Account { body: Vec<u8>, deliver: bool },
    /// Nothing: it has been delivered or given up.
    Done,
}

/// The view of [`Phase`].
pub enum PhaseView {
    Lookup(LookupStep),
    Slot,
    Candidate,
    Precheck { tag: Seq<u8> },
    Create { tag: Seq<u8> },
    HandshakeTag { tag: Seq<u8> },
    RollBack { known: bool },
    NewTag,
    Establish { counter: u64, ratcheted: bool },
    Session { counter: u64, ratcheted: bool, is_new: bool },
    Open(OpeningView),
    Ratchet { bytes: Seq<u8>, opening: OpeningView },
    Account { body: Seq<u8>, deliver: bool },
    Done,
}

impl View for Phase {
    type V = PhaseView;

    open spec fn view(&self) -> PhaseView {
        match *self {
            Phase::Lookup(step) => PhaseView::Lookup(step),
            Phase::Slot => PhaseView::Slot,
            Phase::Candidate => PhaseView::Candidate,
            Phase::Precheck { tag } => PhaseView::Precheck { tag: tag@ },
            Phase::Create { tag } => PhaseView::Create { tag: tag@ },
            Phase::HandshakeTag { tag } => PhaseView::HandshakeTag { tag: tag@ },
            Phase::RollBack { known } => PhaseView::RollBack { known },
            Phase::NewTag => PhaseView::NewTag,
            Phase::Establish { counter, ratcheted } => PhaseView::Establish { counter, ratcheted },
            Phase::Session { counter, ratcheted, is_new } => PhaseView::Session {
                counter,
                ratcheted,
                is_new,
            },
            Phase::Open(opening) => PhaseView::Open(opening@),
            Phase::Ratchet { bytes, opening } => PhaseView::Ratchet {
                bytes: bytes@,
                opening: opening@,
            },
            Phase::Account { body, deliver } => PhaseView::Account { body: body@, deliver },
            Phase::Done => PhaseView::Done,
        }
    }
}

/// A packet on its way.
pub struct Receiving {
    pub packet: Vec<u8>,
    /// The tags that the packet may carry, which the session table is asked about by number.
    pub tags: Vec<[u8; 8]>,
    pub registered_clients: bool,
    /// The address that the packet came from, as a number.
    pub address: u128,
    /// The layout of packets whose session has no mask.
    pub catalog: SessionLayout,
    pub phase: Phase,
}

/// What a packet brings with it, whatever it is waiting for.
pub struct PacketFacts {
    pub packet: Seq<u8>,
    pub tags: Seq<Seq<u8>>,
    pub registered_clients: bool,
    pub address: u128,
    pub catalog: SessionLayout,
}

/// One step: what the packet waits for, what to do, and what all packets share from then on.
pub struct Step {
    pub phase: PhaseView,
    pub action: ActionView,
    pub guards: GuardsView,
}

/// The packet waits, and this is to be done.
pub open spec fn go(phase: PhaseView, action: ActionView, guards: GuardsView) -> Step {
    Step { phase, action, guards }
}

/// The packet is done with.
pub open spec fn end(action: ActionView, guards: GuardsView) -> Step {
    Step { phase: PhaseView::Done, action, guards }
}

/// What follows from the outcome of a lookup.
pub open spec fn settled(outcome: LookupOutcome, g: GuardsView) -> Step {
    match outcome {
        LookupOutcome::Ask(step) => go(PhaseView::Lookup(step), ActionView::Ask(step), g),
        LookupOutcome::Found { tag, counter, ratcheted } => go(
            PhaseView::Session { counter, ratcheted, is_new: false },
            ActionView::ReadSession,
            g,
        ),
        LookupOutcome::Invalid => end(ActionView::Fail(PacketError::InvalidTag), g),
        LookupOutcome::NotFound => go(PhaseView::Slot, ActionView::TakeSlot, g),
    }
}

/// What follows from the outcome of a lookup; the budget for scans is asked on the way.
pub open spec fn looked_up(tags: nat, outcome: LookupOutcome, g: GuardsView, now: u64) -> Step {
    if outcome == LookupOutcome::Ask(LookupStep::ChargeBudget) {
        let fallback = charged(g.fallback, now);
        settled(
            lookup_next(
                tags,
                LookupStep::ChargeBudget,
                LookupAnswer::Budget(fallback.count <= MAX_FALLBACK_SCANS_PER_SEC),
            ),
            GuardsView { fallback, ..g },
        )
    } else {
        settled(outcome, g)
    }
}

/// What follows once it is known whether a handshake is taken up.
pub open spec fn slot_taken(
    f: PacketFacts,
    in_progress: bool,
    session_count: usize,
    g: GuardsView,
    now: u64,
) -> Step {
    let admission = admitted(
        in_progress,
        session_count,
        cooling_down(g.cooldowns, f.address, now),
        g.handshake,
        now,
    );
    let charge = GuardsView { handshake: charged(g.handshake, now), ..g };
    match admission {
        Admission::Ignore => end(ActionView::Finish, g),
        Admission::Refuse(PacketError::CooldownActive) => end(
            ActionView::Fail(PacketError::CooldownActive),
            g,
        ),
        Admission::Refuse(e) => end(ActionView::Fail(e), charge),
        Admission::Proceed => go(PhaseView::Candidate, ActionView::NextCandidate, charge),
    }
}

/// What follows from the next mask, or from there being none.
pub open spec fn candidate_given(
    f: PacketFacts,
    mask: Option<MaskView>,
    g: GuardsView,
    now: u64,
) -> Step {
    match mask {
        Some(m) => match candidate_of(f.packet, m) {
            Some((tag, eph_pub)) => go(
                PhaseView::Precheck { tag },
                ActionView::Precheck { tag, eph_pub },
                g,
            ),
            None => go(PhaseView::Candidate, ActionView::NextCandidate, g),
        },
        None => end(
            ActionView::Fail(
                if f.registered_clients {
                    PacketError::NoClientMatches
                } else {
                    PacketError::NoMaskMatches
                },
            ),
            GuardsView {
                cooldowns: after_unmatched(f.registered_clients, g.cooldowns, f.address, now),
                ..g
            },
        ),
    }
}

/// The next attempt to open a packet, from position `from` of its offsets on.
pub open spec fn open_from(
    f: PacketFacts,
    o: OpeningView,
    from: int,
    tried: bool,
    g: GuardsView,
) -> Step {
    match first_inside(o.offsets, from, f.packet.len()) {
        Some(at) => go(
            PhaseView::Open(OpeningView { at, ..o }),
            ActionView::Open {
                key: o.key,
                nonce: nonce_of(o.counter as nat),
                offset: o.offsets[at as int],
            },
            g,
        ),
        None => if tried {
            end(ActionView::PassOn, g)
        } else {
            end(ActionView::Fail(PacketError::InvalidLength), g)
        },
    }
}

/// What follows once the session of a packet is known.
pub open spec fn session_read(
    f: PacketFacts,
    s: SessionReading,
    counter: u64,
    ratcheted: bool,
    is_new: bool,
    g: GuardsView,
) -> Step {
    let standing = PacketStanding {
        is_new_session: is_new,
        is_ratcheted_tag: ratcheted,
        session_ratcheted: s.session_ratcheted,
    };
    let mask = match s.mask {
        Some(m) => Some(m@),
        None => None,
    };
    let layout = session_layout_of(s.is_cluster_peer, s.cluster_header_len, mask, f.catalog);
    match key_for(standing, s.has_ratcheted_keys) {
        Err(e) => end(ActionView::Fail(e), g),
        Ok(key) => open_from(
            f,
            OpeningView {
                counter,
                key,
                offsets: payload_offsets_of(f.packet.len(), standing, layout, f.catalog, s.quic),
                at: 0,
                effects: effects_of(
                    standing,
                    s.has_kernel,
                    s.from_other_address,
                    counter,
                    s.window_base,
                    s.checks_masks,
                ),
                traffic: after_uplink(s.traffic, f.packet.len() as u64),
                flush: billed_uplink(s.traffic, f.packet.len() as u64, s.has_client),
            },
            0,
            false,
            g,
        ),
    }
}

/// What follows from decrypted bytes once the session's keys are what they should be.
pub open spec fn unpacked(bytes: Seq<u8>, o: OpeningView, g: GuardsView) -> Step {
    match unpadded(bytes) {
        Ok(body) => go(
            PhaseView::Account { body, deliver: o.effects.deliver },
            ActionView::Account { effects: o.effects, traffic: o.traffic, flush: o.flush },
            g,
        ),
        Err(e) => end(ActionView::Fail(e), g),
    }
}

/// What follows an event. An event that answers nothing the packet waits for ends it.
pub open spec fn next(f: PacketFacts, phase: PhaseView, g: GuardsView, event: Event, now: u64) -> Step {
    match (phase, event) {
        (PhaseView::Lookup(step), Event::Answer(answer)) => looked_up(
            f.tags.len(),
            lookup_next(f.tags.len(), step, answer),
            g,
            now,
        ),
        (PhaseView::Slot, Event::Slot { in_progress, session_count }) => slot_taken(
            f,
            in_progress,
            session_count,
            g,
            now,
        ),
        (PhaseView::Candidate, Event::Candidate(mask)) => candidate_given(
            f,
            match mask {
                Some(m) => Some(m@),
                None => None,
            },
            g,
            now,
        ),
        (PhaseView::Precheck { tag }, Event::Prechecked(passed)) => if passed {
            go(PhaseView::Create { tag }, ActionView::Create, g)
        } else {
            go(PhaseView::Candidate, ActionView::NextCandidate, g)
        },
        (PhaseView::Create { tag }, Event::Created(created)) => if created {
            go(PhaseView::HandshakeTag { tag }, ActionView::CheckHandshakeTag { tag }, g)
        } else if f.registered_clients {
            go(PhaseView::Candidate, ActionView::NextCandidate, g)
        } else {
            end(ActionView::PassOn, g)
        },
        (PhaseView::HandshakeTag { tag }, Event::HandshakeTag(accepted)) => if accepted {
            go(PhaseView::NewTag, ActionView::CheckTag { tag }, g)
        } else {
            go(PhaseView::RollBack { known: false }, ActionView::RollBack, g)
        },
        (PhaseView::RollBack { known }, Event::RolledBack) => if known {
            end(ActionView::Fail(PacketError::TagMismatch), g)
        } else {
            go(PhaseView::Candidate, ActionView::NextCandidate, g)
        },
        (PhaseView::NewTag, Event::NewTag(found)) => match found {
            Some((counter, ratcheted)) => go(
                PhaseView::Establish { counter, ratcheted },
                ActionView::Establish,
                GuardsView { cooldowns: g.cooldowns.remove(f.address), ..g },
            ),
            None => go(PhaseView::RollBack { known: true }, ActionView::RollBack, g),
        },
        (PhaseView::Establish { counter, ratcheted }, Event::Established(greeted)) => if greeted {
            go(PhaseView::Session { counter, ratcheted, is_new: true }, ActionView::ReadSession, g)
        } else {
            end(ActionView::PassOn, g)
        },
        (PhaseView::Session { counter, ratcheted, is_new }, Event::Session(s)) => session_read(
            f,
            s,
            counter,
            ratcheted,
            is_new,
            g,
        ),
        (PhaseView::Open(o), Event::Opened(opened)) => match opened {
            Some(bytes) => if o.effects.complete_ratchet {
                go(
                    PhaseView::Ratchet { bytes: bytes@, opening: o },
                    ActionView::CompleteRatchet { install_kernel: o.effects.install_kernel },
                    g,
                )
            } else {
                unpacked(bytes@, o, g)
            },
            None => open_from(f, o, o.at + 1, true, g),
        },
        (PhaseView::Ratchet { bytes, opening }, Event::Ratcheted) => unpacked(bytes, opening, g),
        (PhaseView::Account { body, deliver }, Event::Accounted) => if deliver {
            end(ActionView::Deliver { body }, g)
        } else {
            end(ActionView::Finish, g)
        },
        _ => end(ActionView::PassOn, g),
    }
}

/// An event that can be handled: the masks in it have keys of the one length there is, and
/// headers of sizes that can be counted.
pub open spec fn is_sound(event: Event) -> bool {
    match event {
        Event::Candidate(Some(mask)) => mask.eph_pub_length == EPH_PUB_LEN,
        Event::Session(s) => {
            &&& s.cluster_header_len + 24 <= usize::MAX
            &&& s.mask matches Some(m) ==> handshake_header_len(m@) + 24 <= usize::MAX
        },
        _ => true,
    }
}

impl Receiving {
    /// What the packet brings with it.
    pub open spec fn facts(&self) -> PacketFacts {
        PacketFacts {
            packet: self.packet@,
            tags: tags_view(self.tags@),
            registered_clients: self.registered_clients,
            address: self.address,
            catalog: self.catalog,
        }
    }

    /// The catalog's headers are of sizes that can be counted.
    pub open spec fn is_countable(&self) -> bool {
        self.catalog.packet_len + 24 <= usize::MAX && self.catalog.handshake_len + 24 <= usize::MAX
    }

    /// Takes up a packet: its tags are read at the offsets where masks have them, and the first
    /// question is put. A packet that is too short is refused.
    pub fn start(
        packet: Vec<u8>,
        tag_offsets: &Vec<usize>,
        registered_clients: bool,
        address: u128,
        catalog: SessionLayout,
        guards: &mut Guards,
        now: u64,
    ) -> (started: (Receiving, Action))
        requires
            catalog.packet_len + 24 <= usize::MAX,
            catalog.handshake_len + 24 <= usize::MAX,
        ensures
            ({
                let (r, action) = started;
                let tags = tags_at(packet@, tag_offsets@);
                let step = if packet@.len() < MIN_PACKET_LEN {
                    end(ActionView::Fail(PacketError::TooShort), old(guards)@)
                } else {
                    looked_up(tags.len(), lookup_start(tags.len()), old(guards)@, now)
                };
                &&& r.packet@ == packet@
                &&& tags_view(r.tags@) == tags
                &&& r.registered_clients == registered_clients
                &&& r.address == address
                &&& r.catalog == catalog
                &&& r.is_countable()
                &&& r.phase@ == step.phase
                &&& action@ == step.action
                &&& final(guards)@ == step.guards
            }),
    {
        let tags: Vec<[u8; 8]> = candidate_tags(packet.as_slice(), tag_offsets);
        let n: usize = tags.len();
        let mut receiving: Receiving = Receiving {
            packet,
            tags,
            registered_clients,
            address,
            catalog,
            phase: Phase::Done,
        };
        if check_packet_length(receiving.packet.len()).is_err() {
            return (receiving, Action::Fail(PacketError::TooShort));
        }
        let action: Action = receiving.settle(start_lookup(n), guards, now);
        (receiving, action)
    }

    fn settle(&mut self, outcome: LookupOutcome, guards: &mut Guards, now: u64) -> (action: Action)
        ensures
            ({
                let step = looked_up(old(self).tags@.len(), outcome, old(guards)@, now);
                &&& final(self).phase@ == step.phase
                &&& action@ == step.action
                &&& final(guards)@ == step.guards
            }),
            final(self).packet == old(self).packet,
            final(self).tags == old(self).tags,
            final(self).registered_clients == old(self).registered_clients,
            final(self).address == old(self).address,
            final(self).catalog == old(self).catalog,
    {
        let asked: LookupOutcome = match outcome {
            LookupOutcome::Ask(LookupStep::ChargeBudget) => {
                let allowed: bool = guards.fallback.fallback_scan_allowed(now);
                find_existing_session(
                    self.tags.len(),
                    LookupStep::ChargeBudget,
                    LookupAnswer::Budget(allowed),
                )
            },
            _ => outcome,
        };
        match asked {
            LookupOutcome::Ask(step) => {
                self.phase = Phase::Lookup(step);
                Action::Ask(step)
            },
            LookupOutcome::Found { tag: _, counter, ratcheted } => {
                self.phase = Phase::Session { counter, ratcheted, is_new: false };
                Action::ReadSession
            },
            LookupOutcome::Invalid => {
                self.phase = Phase::Done;
                Action::Fail(PacketError::InvalidTag)
            },
            LookupOutcome::NotFound => {
                self.phase = Phase::Slot;
                Action::TakeSlot
            },
        }
    }

    fn open_next(&mut self, opening: Opening, from: usize, tried: bool) -> (action: Action)
        requires
            matches!(old(self).phase, Phase::Done),
        ensures
            forall|g: GuardsView|
                ({
                    let step = #[trigger] open_from(
                        old(self).facts(),
                        opening@,
                        from as int,
                        tried,
                        g,
                    );
                    &&& final(self).phase@ == step.phase
                    &&& action@ == step.action
                    &&& step.guards == g
                }),
            final(self).facts() == old(self).facts(),
            final(self).tags == old(self).tags,
    {
        match next_payload_offset(&opening.offsets, from, self.packet.len()) {
            Some(at) => {
                let nonce: [u8; 12] = compute_nonce(opening.counter);
                let key: KeyChoice = opening.key;
                let offset: usize = opening.offsets[at];
                let mut opening: Opening = opening;
                opening.at = at;
                self.phase = Phase::Open(opening);
                Action::Open { key, nonce, offset }
            },
            None => {
                if tried {
                    Action::PassOn
                } else {
                    Action::Fail(PacketError::InvalidLength)
                }
            },
        }
    }

    fn unpack(&mut self, bytes: Vec<u8>, opening: Opening) -> (action: Action)
        requires
            matches!(old(self).phase, Phase::Done),
        ensures
            forall|g: GuardsView|
                ({
                    let step = #[trigger] unpacked(bytes@, opening@, g);
                    &&& final(self).phase@ == step.phase
                    &&& action@ == step.action
                    &&& step.guards == g
                }),
            final(self).facts() == old(self).facts(),
            final(self).tags == old(self).tags,
    {
        match strip_padding(bytes.as_slice()) {
            Ok(body) => {
                self.phase = Phase::Account { body, deliver: opening.effects.deliver };
                Action::Account {
                    effects: opening.effects,
                    traffic: opening.traffic,
                    flush: opening.flush,
                }
            },
            Err(e) => Action::Fail(e),
        }
    }

    fn read_session(&mut self, s: SessionReading, counter: u64, ratcheted: bool, is_new: bool) -> (action:
        Action)
        requires
            matches!(old(self).phase, Phase::Done),
            old(self).is_countable(),
            is_sound(Event::Session(s)),
        ensures
            forall|g: GuardsView|
                ({
                    let step = #[trigger] session_read(
                        old(self).facts(),
                        s,
                        counter,
                        ratcheted,
                        is_new,
                        g,
                    );
                    &&& final(self).phase@ == step.phase
                    &&& action@ == step.action
                    &&& step.guards == g
                }),
            final(self).facts() == old(self).facts(),
            final(self).tags == old(self).tags,
    {
        let standing: PacketStanding = PacketStanding {
            is_new_session: is_new,
            is_ratcheted_tag: ratcheted,
            session_ratcheted: s.session_ratcheted,
        };
        let key: KeyChoice = match choose_key(standing, s.has_ratcheted_keys) {
            Ok(key) => key,
            Err(e) => {
                return Action::Fail(e);
            },
        };
        let mask: Option<&MaskProfile> = match &s.mask {
            Some(m) => Some(m),
            None => None,
        };
        let layout: SessionLayout = session_layout(
            s.is_cluster_peer,
            s.cluster_header_len,
            mask,
            self.catalog,
        );
        let offsets: Vec<usize> = payload_offsets(
            self.packet.len(),
            standing,
            layout,
            self.catalog,
            s.quic,
        );
        let effects: ReceiveEffects = receive_effects(
            standing,
            s.has_kernel,
            s.from_other_address,
            counter,
            s.window_base,
            s.checks_masks,
        );
        let mut traffic: TrafficCounters = s.traffic;
        let flush: Option<(u64, u64)> = traffic.account_uplink(
            self.packet.len() as u64,
            s.has_client,
        );
        self.open_next(
            Opening { counter, key, offsets, at: 0, effects, traffic, flush },
            0,
            false,
        )
    }

    fn take_slot(
        &mut self,
        in_progress: bool,
        session_count: usize,
        guards: &mut Guards,
        now: u64,
    ) -> (action: Action)
        requires
            matches!(old(self).phase, Phase::Done),
        ensures
            ({
                let step = slot_taken(
                    old(self).facts(),
                    in_progress,
                    session_count,
                    old(guards)@,
                    now,
                );
                &&& final(self).phase@ == step.phase
                &&& action@ == step.action
                &&& final(guards)@ == step.guards
            }),
            final(self).facts() == old(self).facts(),
            final(self).tags == old(self).tags,
    {
        match admit_handshake(
            in_progress,
            session_count,
            &guards.cooldowns,
            self.address,
            &mut guards.handshake,
            now,
        ) {
            Admission::Ignore => Action::Finish,
            Admission::Refuse(e) => Action::Fail(e),
            Admission::Proceed => {
                self.phase = Phase::Candidate;
                Action::NextCandidate
            },
        }
    }

    fn take_candidate(&mut self, mask: Option<MaskProfile>, guards: &mut Guards, now: u64) -> (action:
        Action)
        requires
            matches!(old(self).phase, Phase::Done),
            is_sound(Event::Candidate(mask)),
        ensures
            ({
                let step = candidate_given(
                    old(self).facts(),
                    match mask {
                        Some(m) => Some(m@),
                        None => None,
                    },
                    old(guards)@,
                    now,
                );
                &&& final(self).phase@ == step.phase
                &&& action@ == step.action
                &&& final(guards)@ == step.guards
            }),
            final(self).facts() == old(self).facts(),
            final(self).tags == old(self).tags,
    {
        match mask {
            Some(m) => match handshake_candidate(self.packet.as_slice(), &m) {
                Some(candidate) => {
                    self.phase = Phase::Precheck { tag: candidate.tag };
                    Action::Precheck { tag: candidate.tag, eph_pub: candidate.eph_pub }
                },
                None => {
                    self.phase = Phase::Candidate;
                    Action::NextCandidate
                },
            },
            None => Action::Fail(
                unmatched_handshake(
                    self.registered_clients,
                    &mut guards.cooldowns,
                    self.address,
                    now,
                ),
            ),
        }
    }

    /// Takes in what came of the last action, and says what to do next.
    pub fn advance(&mut self, event: Event, guards: &mut Guards, now: u64) -> (action: Action)
        requires
            old(self).is_countable(),
            is_sound(event),
        ensures
            ({
                let step = next(old(self).facts(), old(self).phase@, old(guards)@, event, now);
                &&& final(self).phase@ == step.phase
                &&& action@ == step.action
                &&& final(guards)@ == step.guards
            }),
            final(self).facts() == old(self).facts(),
            final(self).tags == old(self).tags,
            final(self).is_countable(),
    {
        let mut phase: Phase = Phase::Done;
        std::mem::swap(&mut phase, &mut self.phase);
        match (phase, event) {
            (Phase::Lookup(step), Event::Answer(answer)) => {
                let outcome: LookupOutcome = find_existing_session(self.tags.len(), step, answer);
                self.settle(outcome, guards, now)
            },
            (Phase::Slot, Event::Slot { in_progress, session_count }) => self.take_slot(
                in_progress,
                session_count,
                guards,
                now,
            ),
            (Phase::Candidate, Event::Candidate(mask)) => self.take_candidate(mask, guards, now),
            (Phase::Precheck { tag }, Event::Prechecked(passed)) => {
                if passed {
                    self.phase = Phase::Create { tag };
                    Action::Create
                } else {
                    self.phase = Phase::Candidate;
                    Action::NextCandidate
                }
            },
            (Phase::Create { tag }, Event::Created(created)) => {
                if created {
                    self.phase = Phase::HandshakeTag { tag };
                    return Action::CheckHandshakeTag { tag };
                }
                match after_candidate(self.registered_clients, CandidateOutcome::CreateFailed) {
                    CandidateAction::Next => {
                        self.phase = Phase::Candidate;
                        Action::NextCandidate
                    },
                    _ => Action::PassOn,
                }
            },
            (Phase::HandshakeTag { tag }, Event::HandshakeTag(accepted)) => {
                if accepted {
                    self.phase = Phase::NewTag;
                    Action::CheckTag { tag }
                } else {
                    self.phase = Phase::RollBack { known: false };
                    Action::RollBack
                }
            },
            (Phase::RollBack { known }, Event::RolledBack) => {
                if known {
                    Action::Fail(PacketError::TagMismatch)
                } else {
                    self.phase = Phase::Candidate;
                    Action::NextCandidate
                }
            },
            (Phase::NewTag, Event::NewTag(found)) => match found {
                Some((counter, ratcheted)) => {
                    guards.cooldowns.clear(self.address);
                    self.phase = Phase::Establish { counter, ratcheted };
                    Action::Establish
                },
                None => {
                    self.phase = Phase::RollBack { known: true };
                    Action::RollBack
                },
            },
            (Phase::Establish { counter, ratcheted }, Event::Established(greeted)) => {
                if greeted {
                    self.phase = Phase::Session { counter, ratcheted, is_new: true };
                    Action::ReadSession
                } else {
                    Action::PassOn
                }
            },
            (
                Phase::Session { counter, ratcheted, is_new },
                Event::Session(s),
            ) => self.read_session(s, counter, ratcheted, is_new),
            (Phase::Open(opening), Event::Opened(opened)) => match opened {
                Some(bytes) => {
                    if opening.effects.complete_ratchet {
                        let install_kernel: bool = opening.effects.install_kernel;
                        self.phase = Phase::Ratchet { bytes, opening };
                        Action::CompleteRatchet { install_kernel }
                    } else {
                        self.unpack(bytes, opening)
                    }
                },
                None => {
                    if opening.at < opening.offsets.len() {
                        let from: usize = opening.at + 1;
                        self.open_next(opening, from, true)
                    } else {
                        Action::PassOn
                    }
                },
            },
            (Phase::Ratchet { bytes, opening }, Event::Ratcheted) => self.unpack(bytes, opening),
            (Phase::Account { body, deliver }, Event::Accounted) => {
                if deliver {
                    Action::Deliver { body }
                } else {
                    Action::Finish
                }
            },
            _ => Action::PassOn,
        }
    }
}

/// The first step of a packet.
pub open spec fn first_step(f: PacketFacts, g: GuardsView, now: u64) -> Step {
    if f.packet.len() < MIN_PACKET_LEN {
        end(ActionView::Fail(PacketError::TooShort), g)
    } else {
        looked_up(f.tags.len(), lookup_start(f.tags.len()), g, now)
    }
}

/// Where a packet stands after some events, each with its time.
pub open spec fn run(f: PacketFacts, start: Step, events: Seq<(Event, u64)>) -> Step
    decreases events.len(),
{
    if events.len() == 0 {
        start
    } else {
        let before = run(f, start, events.drop_last());
        next(f, before.phase, before.guards, events.last().0, events.last().1)
    }
}

/// The session table has named a session that accepts the packet's tag.
pub open spec fn was_matched(events: Seq<(Event, u64)>) -> bool
    decreases events.len(),
{
    events.len() > 0 && (events.last().0 matches Event::Answer(LookupAnswer::Matched { .. })
        || was_matched(events.drop_last()))
}

/// The packet was decrypted to these bytes.
pub open spec fn was_opened(events: Seq<(Event, u64)>, bytes: Seq<u8>) -> bool
    decreases events.len(),
{
    events.len() > 0 && ((events.last().0 matches Event::Opened(Some(b)) && b@ == bytes)
        || was_opened(events.drop_last(), bytes))
}

/// The packet was decrypted to bytes that hold this between their padding.
pub open spec fn held(events: Seq<(Event, u64)>, body: Seq<u8>) -> bool {
    exists|bytes: Seq<u8>| #[trigger]
        was_opened(events, bytes) && unpadded(bytes) == Ok::<Seq<u8>, PacketError>(body)
}

/// What a packet waits for is borne out by what has happened.
pub open spec fn borne_out(phase: PhaseView, events: Seq<(Event, u64)>) -> bool {
    match phase {
        PhaseView::Session { counter, ratcheted, is_new } => is_new || was_matched(events),
        PhaseView::Open(o) => o.effects.deliver ==> was_matched(events),
        PhaseView::Ratchet { bytes, opening } => was_opened(events, bytes) && (
        opening.effects.deliver ==> was_matched(events)),
        PhaseView::Account { body, deliver } => held(events, body) && (deliver ==> was_matched(
            events,
        )),
        _ => true,
    }
}

proof fn lemma_step_is_borne_out(
    f: PacketFacts,
    before: Step,
    earlier: Seq<(Event, u64)>,
    events: Seq<(Event, u64)>,
)
    requires
        events.len() > 0,
        earlier == events.drop_last(),
        borne_out(before.phase, earlier),
    ensures
        borne_out(
            next(f, before.phase, before.guards, events.last().0, events.last().1).phase,
            events,
        ),
        next(f, before.phase, before.guards, events.last().0, events.last().1).action matches
            ActionView::Deliver { body } ==> held(events, body) && was_matched(events),
{
    let (event, now) = events.last();
    let after = next(f, before.phase, before.guards, event, now);
    match (before.phase, event) {
        (PhaseView::Open(o), Event::Opened(Some(bytes))) => {
            assert(was_opened(events, bytes@));
        },
        (PhaseView::Ratchet { bytes, opening }, Event::Ratcheted) => {
            assert(was_opened(events, bytes));
        },
        (PhaseView::Account { body, deliver }, Event::Accounted) => {
            let bytes = choose|bytes: Seq<u8>| #[trigger]
                was_opened(earlier, bytes) && unpadded(bytes) == Ok::<Seq<u8>, PacketError>(body);
            assert(was_opened(events, bytes));
        },
        _ => {},
    }
}

proof fn lemma_run_is_borne_out(f: PacketFacts, g: GuardsView, now: u64, events: Seq<(Event, u64)>)
    ensures
        borne_out(run(f, first_step(f, g, now), events).phase, events),
    decreases events.len(),
{
    if events.len() > 0 {
        let earlier = events.drop_last();
        lemma_run_is_borne_out(f, g, now, earlier);
        lemma_step_is_borne_out(f, run(f, first_step(f, g, now), earlier), earlier, events);
    }
}

/// Whatever happens, what is delivered was decrypted from the packet, and the packet's tag was
/// accepted by a session that was there before: a packet that opens a session is never
/// delivered, nor is one that nobody accepts.
pub proof fn delivered_packets_were_opened(
    f: PacketFacts,
    g: GuardsView,
    now: u64,
    events: Seq<(Event, u64)>,
    body: Seq<u8>,
)
    requires
        run(f, first_step(f, g, now), events).action == (ActionView::Deliver { body }),
    ensures
        held(events, body),
        was_matched(events),
{
    if events.len() > 0 {
        let earlier = events.drop_last();
        lemma_run_is_borne_out(f, g, now, earlier);
        lemma_step_is_borne_out(f, run(f, first_step(f, g, now), earlier), earlier, events);
    }
}

/// A session has been created that may still be taken back.
pub open spec fn has_tentative(phase: PhaseView) -> bool {
    phase is HandshakeTag || phase is RollBack || phase is NewTag
}

#[verifier::spinoff_prover]
proof fn lemma_tentative_is_settled(
    f: PacketFacts,
    phase: PhaseView,
    g: GuardsView,
    event: Event,
    now: u64,
)
    requires
        has_tentative(phase),
        phase is HandshakeTag ==> event is HandshakeTag,
        phase is RollBack ==> event is RolledBack,
        phase is NewTag ==> event is NewTag,
    ensures
        ({
            let after = next(f, phase, g, event, now);
            &&& !has_tentative(after.phase) ==> phase is RollBack || after.action
                == ActionView::Establish
            &&& after.phase is RollBack ==> after.action == ActionView::RollBack
            &&& after.action == ActionView::Establish ==> phase is NewTag
        }),
{
}

#[verifier::spinoff_prover]
proof fn lemma_tentative_is_created(
    f: PacketFacts,
    phase: PhaseView,
    g: GuardsView,
    event: Event,
    now: u64,
)
    requires
        !has_tentative(phase),
    ensures
        ({
            let after = next(f, phase, g, event, now);
            &&& has_tentative(after.phase) ==> event == Event::Created(true) && !(
            after.phase is RollBack)
            &&& phase is Create && event == Event::Created(true) ==> has_tentative(after.phase)
            &&& after.action != ActionView::Establish
        }),
{
}

/// No session is left behind: one that was created for a handshake is either taken back or
/// given to its client, and none other is. Each question is taken to be answered by what it
/// asked for.
pub proof fn no_session_is_left_behind(
    f: PacketFacts,
    phase: PhaseView,
    g: GuardsView,
    event: Event,
    now: u64,
)
    requires
        phase is HandshakeTag ==> event is HandshakeTag,
        phase is RollBack ==> event is RolledBack,
        phase is NewTag ==> event is NewTag,
    ensures
        ({
            let after = next(f, phase, g, event, now);
            &&& !has_tentative(phase) && has_tentative(after.phase) ==> event
                == Event::Created(true)
            &&& phase is Create && event == Event::Created(true) ==> has_tentative(after.phase)
            &&& has_tentative(phase) && !has_tentative(after.phase) ==> phase is RollBack
                || after.action == ActionView::Establish
            &&& after.phase is RollBack ==> after.action == ActionView::RollBack
            &&& after.action == ActionView::Establish ==> phase is NewTag
        }),
{
    if has_tentative(phase) {
        lemma_tentative_is_settled(f, phase, g, event, now);
    } else {
        lemma_tentative_is_created(f, phase, g, event, now);
    }
}

/// A tag that a session knows but does not accept refuses the packet at once: it is not tried
/// as a handshake.
pub proof fn rejected_tag_refuses_packet(f: PacketFacts, g: GuardsView, i: usize, now: u64)
    ensures
        next(
            f,
            PhaseView::Lookup(LookupStep::ByTag(i)),
            g,
            Event::Answer(LookupAnswer::Rejected),
            now,
        ) == end(ActionView::Fail(PacketError::InvalidTag), g),
{
}

/// An address whose handshake matched no registered client must wait: for the next four
/// seconds its handshakes are refused.
pub proof fn unmatched_address_waits(f: PacketFacts, g: GuardsView, now: u64, later: u64)
    requires
        f.registered_clients,
        later < now + 4_000_000_000,
    ensures
        ({
            let after = next(f, PhaseView::Candidate, g, Event::Candidate(None), now);
            &&& after.action == ActionView::Fail(PacketError::NoClientMatches)
            &&& cooling_down(after.guards.cooldowns, f.address, later)
            &&& next(
                f,
                PhaseView::Slot,
                after.guards,
                Event::Slot { in_progress: false, session_count: 0 },
                later,
            ).action == ActionView::Fail(PacketError::CooldownActive)
        }),
{
}

/// An address whose handshake succeeds need not wait any more.
pub proof fn greeted_address_is_free(
    f: PacketFacts,
    g: GuardsView,
    found: (u64, bool),
    now: u64,
    later: u64,
)
    ensures
        !cooling_down(
            next(f, PhaseView::NewTag, g, Event::NewTag(Some(found)), now).guards.cooldowns,
            f.address,
            later,
        ),
{
}

/// Opening a packet ends: an attempt that fails is followed by one at a later offset, or by
/// none.
pub proof fn opening_ends(f: PacketFacts, o: OpeningView, g: GuardsView, now: u64)
    requires
        o.offsets.len() <= usize::MAX,
    ensures
        match next(f, PhaseView::Open(o), g, Event::Opened(None), now).phase {
            PhaseView::Open(later) => o.at < later.at < o.offsets.len() && later.offsets
                == o.offsets,
            phase => phase is Done,
        },
{
    lemma_first_inside(o.offsets, o.at + 1, f.packet.len());
}

proof fn lemma_first_inside(offsets: Seq<usize>, from: int, packet_len: nat)
    requires
        from >= 0,
        offsets.len() <= usize::MAX,
    ensures
        first_inside(offsets, from, packet_len) matches Some(at) ==> from <= at < offsets.len(),
    decreases offsets.len() - from,
{
    if from < offsets.len() {
        lemma_first_inside(offsets, from + 1, packet_len);
    }
}

/// A tag that a session accepts takes the packet to that session, as one that was there before,
/// with the counter and the keys that the session told; one that nobody knows has the packet
/// tried as a handshake.
pub proof fn matched_tag_leads_to_its_session(
    f: PacketFacts,
    g: GuardsView,
    step: LookupStep,
    counter: u64,
    ratcheted: bool,
    now: u64,
)
    requires
        !(step is ChargeBudget),
    ensures
        ({
            let after = next(
                f,
                PhaseView::Lookup(step),
                g,
                Event::Answer(LookupAnswer::Matched { counter, ratcheted }),
                now,
            );
            &&& after.phase == (PhaseView::Session { counter, ratcheted, is_new: false })
            &&& after.action == ActionView::ReadSession
            &&& after.guards == g
        }),
        ({
            let last = (f.tags.len() - 1) as usize;
            let after = next(
                f,
                PhaseView::Lookup(LookupStep::Recover(last)),
                g,
                Event::Answer(LookupAnswer::Unknown),
                now,
            );
            0 < f.tags.len() <= usize::MAX ==> after.phase == PhaseView::Slot && after.action
                == ActionView::TakeSlot && after.guards == g
        }),
{
}

/// A packet that no session knows at first is looked for by a scan at most twenty times a
/// second, whoever sends it; each such packet counts, and one that comes too many is tried as a
/// handshake at once.
pub proof fn scans_are_rationed(f: PacketFacts, g: GuardsView, now: u64)
    requires
        0 < f.tags.len() <= usize::MAX,
    ensures
        ({
            let last = (f.tags.len() - 1) as usize;
            let after = next(
                f,
                PhaseView::Lookup(LookupStep::ByTag(last)),
                g,
                Event::Answer(LookupAnswer::Unknown),
                now,
            );
            let scans_left = now > g.fallback.since + 1_000_000_000 || g.fallback.count < 20;
            &&& scans_left <==> after.action == ActionView::Ask(LookupStep::Refresh)
            &&& !scans_left <==> after.action == ActionView::TakeSlot
            &&& now > g.fallback.since + 1_000_000_000 ==> after.guards.fallback.count == 1
                && after.guards.fallback.since == now
            &&& now <= g.fallback.since + 1_000_000_000 ==> after.guards.fallback.since
                == g.fallback.since && (g.fallback.count < u64::MAX ==> after.guards.fallback.count
                == g.fallback.count + 1)
            &&& after.guards.cooldowns == g.cooldowns
            &&& after.guards.handshake == g.handshake
        }),
{
}

/// A handshake that there is room for is tried under one mask after the other, and counts
/// against the scans of the running second; one that there is no room for ends without a word,
/// and one from an address that must wait is refused, and neither counts.
pub proof fn handshake_waits_its_turn(
    f: PacketFacts,
    g: GuardsView,
    in_progress: bool,
    session_count: usize,
    now: u64,
)
    ensures
        ({
            let after = next(
                f,
                PhaseView::Slot,
                g,
                Event::Slot { in_progress, session_count },
                now,
            );
            let room = !in_progress && session_count < 490;
            let waits = cooling_down(g.cooldowns, f.address, now);
            let fresh = now > g.handshake.since + 1_000_000_000;
            let scans_left = fresh || g.handshake.count < 100;
            &&& !room ==> after.action == ActionView::Finish && after.guards == g
            &&& room && waits ==> after.action == ActionView::Fail(PacketError::CooldownActive)
                && after.guards == g
            &&& room && !waits && scans_left ==> after.action == ActionView::NextCandidate
                && after.phase == PhaseView::Candidate
            &&& room && !waits && !scans_left ==> after.action == ActionView::Fail(
                PacketError::ScanBudgetExhausted,
            )
            &&& !(after.action is NextCandidate) ==> after.phase == PhaseView::Done
            &&& room && !waits && fresh ==> after.guards.handshake == (ScanBudget {
                count: 1,
                since: now,
            })
            &&& room && !waits && !fresh && g.handshake.count < u64::MAX
                ==> after.guards.handshake.count == g.handshake.count + 1
                && after.guards.handshake.since == g.handshake.since
            &&& after.guards.cooldowns == g.cooldowns && after.guards.fallback == g.fallback
        }),
{
}

/// A mask under which the packet can be a handshake has its tag and key checked as they stand in
/// the packet; one under which it cannot is passed over. Once no mask is left the packet is
/// refused, and its address must wait where there is a registry.
pub proof fn masks_are_tried_in_turn(f: PacketFacts, g: GuardsView, mask: MaskProfile, now: u64)
    ensures
        ({
            let after = next(f, PhaseView::Candidate, g, Event::Candidate(Some(mask)), now);
            &&& candidate_of(f.packet, mask@) matches Some((tag, eph_pub)) ==> after.action == (
            ActionView::Precheck { tag, eph_pub }) && after.phase == (PhaseView::Precheck { tag })
            &&& candidate_of(f.packet, mask@) is None ==> after.action
                == ActionView::NextCandidate && after.phase == PhaseView::Candidate
            &&& after.guards == g
        }),
        ({
            let after = next(f, PhaseView::Candidate, g, Event::Candidate(None), now);
            &&& after.phase == PhaseView::Done
            &&& f.registered_clients ==> after.action == ActionView::Fail(
                PacketError::NoClientMatches,
            ) && after.guards.cooldowns.contains_key(f.address)
                && after.guards.cooldowns[f.address].1 == now
            &&& !f.registered_clients ==> after.action == ActionView::Fail(
                PacketError::NoMaskMatches,
            ) && after.guards == g
            &&& after.guards.fallback == g.fallback && after.guards.handshake == g.handshake
        }),
{
}

/// A handshake whose tag checks out gets a session, whose word on the tag and then on its
/// counter is asked for; where each says yes the session is given to its client, whose address
/// need not wait any more, and the packet is opened as the one that opens it.
pub proof fn right_handshake_gets_its_session(
    f: PacketFacts,
    g: GuardsView,
    tag: Seq<u8>,
    counter: u64,
    ratcheted: bool,
    now: u64,
)
    ensures
        ({
            let checked = next(f, PhaseView::Precheck { tag }, g, Event::Prechecked(true), now);
            &&& checked.action == ActionView::Create
            &&& checked.guards == g
            &&& checked.phase == (PhaseView::Create { tag })
        }),
        ({
            let created = next(f, PhaseView::Create { tag }, g, Event::Created(true), now);
            &&& created.action == (ActionView::CheckHandshakeTag { tag })
            &&& created.guards == g
            &&& created.phase == (PhaseView::HandshakeTag { tag })
        }),
        ({
            let known = next(
                f,
                PhaseView::HandshakeTag { tag },
                g,
                Event::HandshakeTag(true),
                now,
            );
            &&& known.action == (ActionView::CheckTag { tag })
            &&& known.guards == g
            &&& known.phase == PhaseView::NewTag
        }),
        ({
            let found = next(
                f,
                PhaseView::NewTag,
                g,
                Event::NewTag(Some((counter, ratcheted))),
                now,
            );
            &&& found.action == ActionView::Establish
            &&& found.phase == (PhaseView::Establish { counter, ratcheted })
            &&& !found.guards.cooldowns.contains_key(f.address)
            &&& forall|other: u128|
                other != f.address ==> {
                    &&& #[trigger] found.guards.cooldowns.contains_key(other)
                        == g.cooldowns.contains_key(other)
                    &&& g.cooldowns.contains_key(other) ==> found.guards.cooldowns[other]
                        == g.cooldowns[other]
                }
            &&& found.guards.fallback == g.fallback && found.guards.handshake == g.handshake
        }),
        ({
            let greeted = next(
                f,
                PhaseView::Establish { counter, ratcheted },
                g,
                Event::Established(true),
                now,
            );
            &&& greeted.action == ActionView::ReadSession
            &&& greeted.guards == g
            &&& greeted.phase == (PhaseView::Session { counter, ratcheted, is_new: true })
        }),
{
}

/// A handshake that fails at one mask goes on with the next: where tag and key do not fit, where
/// no session could be made for a registered client, and where the session that was made does
/// not know the tag, which is taken back first.
pub proof fn wrong_candidate_is_passed_over(f: PacketFacts, g: GuardsView, tag: Seq<u8>, now: u64)
    ensures
        next(f, PhaseView::Precheck { tag }, g, Event::Prechecked(false), now).action
            == ActionView::NextCandidate,
        next(f, PhaseView::Create { tag }, g, Event::Created(false), now).action == (
        if f.registered_clients {
            ActionView::NextCandidate
        } else {
            ActionView::PassOn
        }),
        next(f, PhaseView::HandshakeTag { tag }, g, Event::HandshakeTag(false), now).action
            == ActionView::RollBack,
        ({
            let back = next(
                f,
                PhaseView::HandshakeTag { tag },
                g,
                Event::HandshakeTag(false),
                now,
            );
            let onward = next(f, back.phase, back.guards, Event::RolledBack, now);
            onward.action == ActionView::NextCandidate && onward.phase == PhaseView::Candidate
                && onward.guards == g
        }),
        next(f, PhaseView::Precheck { tag }, g, Event::Prechecked(false), now).phase
            == PhaseView::Candidate,
{
}

/// A session that accepts a handshake but not its tag is taken back and the packet refused; a
/// client that could not be greeted ends the packet with the error of the greeting.
pub proof fn failed_greeting_ends_the_packet(f: PacketFacts, g: GuardsView, c: (u64, bool), now: u64)
    ensures
        ({
            let back = next(f, PhaseView::NewTag, g, Event::NewTag(None), now);
            let ended = next(f, back.phase, back.guards, Event::RolledBack, now);
            &&& back.action == ActionView::RollBack
            &&& ended.action == ActionView::Fail(PacketError::TagMismatch)
            &&& ended.phase == PhaseView::Done
            &&& ended.guards == g
        }),
        ({
            let ended = next(
                f,
                PhaseView::Establish { counter: c.0, ratcheted: c.1 },
                g,
                Event::Established(false),
                now,
            );
            ended.action == ActionView::PassOn && ended.phase == PhaseView::Done
        }),
{
}

/// The offsets at which a packet's payload is looked for, given its session.
pub open spec fn offsets_for(f: PacketFacts, s: SessionReading, ratcheted: bool, is_new: bool) -> Seq<
    usize,
> {
    payload_offsets_of(
        f.packet.len(),
        PacketStanding {
            is_new_session: is_new,
            is_ratcheted_tag: ratcheted,
            session_ratcheted: s.session_ratcheted,
        },
        session_layout_of(
            s.is_cluster_peer,
            s.cluster_header_len,
            match s.mask {
                Some(m) => Some(m@),
                None => None,
            },
            f.catalog,
        ),
        f.catalog,
        s.quic,
    )
}

/// A packet of a known session is opened with the key that its tag came from: the replacement
/// key whenever the tag came from the replacement keys and they are there, whether or not the
/// session has switched over; else the session's own. It is refused where that key is gone, and
/// where no offset lies inside it.
pub proof fn packet_is_opened_with_the_key_of_its_tag(
    f: PacketFacts,
    g: GuardsView,
    s: SessionReading,
    counter: u64,
    ratcheted: bool,
    is_new: bool,
    now: u64,
)
    requires
        offsets_for(f, s, ratcheted, is_new).len() <= usize::MAX,
    ensures
        ({
            let after = next(
                f,
                PhaseView::Session { counter, ratcheted, is_new },
                g,
                Event::Session(s),
                now,
            );
            let missing = ratcheted && !is_new && !s.has_ratcheted_keys;
            let offsets = offsets_for(f, s, ratcheted, is_new);
            let inside = exists|k: int|
                0 <= k < offsets.len() && #[trigger] offsets[k] < f.packet.len();
            &&& missing ==> after.action == ActionView::Fail(PacketError::RatchetedKeysMissing)
            &&& !missing && !inside ==> after.action == ActionView::Fail(
                PacketError::InvalidLength,
            )
            &&& !missing && inside ==> match after.action {
                ActionView::Open { key, nonce, offset } => {
                    &&& ratcheted && !is_new ==> key == KeyChoice::Ratcheted
                    &&& !ratcheted || is_new ==> key == KeyChoice::Session
                    &&& nonce == nonce_of(counter as nat)
                    &&& offset < f.packet.len()
                    &&& offsets.contains(offset)
                    &&& offsets[0] < f.packet.len() ==> offset == offsets[0]
                },
                _ => false,
            }
            &&& after.action is Fail ==> after.phase == PhaseView::Done
            &&& after.guards == g
        }),
{
    first_offset_inside_is_taken(offsets_for(f, s, ratcheted, is_new), 0, f.packet.len());
}

/// What follows from a packet is settled by its session when it is opened: what was pending and
/// the whole packet are accounted for, a tag of the replacement keys settles them, a known
/// session's packet from another address moves it, and so on.
pub proof fn session_settles_what_follows(
    f: PacketFacts,
    g: GuardsView,
    s: SessionReading,
    counter: u64,
    ratcheted: bool,
    is_new: bool,
    now: u64,
)
    requires
        s.traffic.pending_bytes_in + f.packet.len() <= u64::MAX,
        s.traffic.bytes_since_rekey + f.packet.len() <= u64::MAX,
    ensures
        next(f, PhaseView::Session { counter, ratcheted, is_new }, g, Event::Session(s), now).phase
            matches PhaseView::Open(o) ==> {
            let due = s.traffic.pending_bytes_in + f.packet.len() >= 16384
                || s.traffic.pending_bytes_out >= 16384;
            &&& o.counter == counter
            &&& o.effects.complete_ratchet == ratcheted
            &&& o.effects.install_kernel == (ratcheted && s.has_kernel)
            &&& o.effects.migrate == (s.from_other_address && !is_new)
            &&& o.effects.refresh_tags == (counter - s.window_base >= 128)
            &&& o.effects.sample == (s.checks_masks && counter % 16 == 0)
            &&& o.effects.deliver == !is_new
            &&& o.traffic.bytes_since_rekey == s.traffic.bytes_since_rekey + f.packet.len()
            &&& o.flush is Some <==> due && s.has_client
            &&& o.flush matches Some((bytes_in, bytes_out)) ==> bytes_in
                == s.traffic.pending_bytes_in + f.packet.len() && bytes_out
                == s.traffic.pending_bytes_out
            &&& due ==> o.traffic.pending_bytes_in == 0 && o.traffic.pending_bytes_out == 0
            &&& !due ==> o.traffic.pending_bytes_in == s.traffic.pending_bytes_in + f.packet.len()
                && o.traffic.pending_bytes_out == s.traffic.pending_bytes_out
        },
{
}

/// An attempt to open a packet that fails is repeated at the next offset inside it, with the
/// same key and nonce; after the last the packet is refused with the error of that attempt.
pub proof fn opening_is_tried_again(f: PacketFacts, g: GuardsView, o: OpeningView, now: u64)
    requires
        o.offsets.len() <= usize::MAX,
    ensures
        ({
            let after = next(f, PhaseView::Open(o), g, Event::Opened(None), now);
            let left = exists|k: int|
                o.at < k < o.offsets.len() && #[trigger] o.offsets[k] < f.packet.len();
            &&& !left ==> after.action == ActionView::PassOn && after.phase == PhaseView::Done
            &&& left ==> match (after.action, after.phase) {
                (ActionView::Open { key, nonce, offset }, PhaseView::Open(later)) => {
                    &&& key == o.key
                    &&& nonce == nonce_of(o.counter as nat)
                    &&& o.at < later.at < o.offsets.len()
                    &&& offset == o.offsets[later.at as int]
                    &&& offset < f.packet.len()
                    &&& forall|k: int|
                        o.at < k < later.at ==> #[trigger] o.offsets[k] >= f.packet.len()
                    &&& later == (OpeningView { at: later.at, ..o })
                },
                _ => false,
            }
            &&& after.guards == g
        }),
{
    first_offset_inside_is_taken(o.offsets, o.at + 1, f.packet.len());
}

/// What was decrypted is accounted for as the session settled it, and then acted on without its
/// padding; the replacement of the session's keys comes before where the tag calls for it. What
/// opens a session is accounted for and not acted on.
pub proof fn opened_packet_is_accounted_for_and_delivered(
    f: PacketFacts,
    g: GuardsView,
    o: OpeningView,
    bytes: Vec<u8>,
    now: u64,
)
    requires
        bytes@.len() >= 2,
        bytes@[0] + bytes@[1] * 256 <= bytes@.len() - 2,
    ensures
        ({
            let opened = next(f, PhaseView::Open(o), g, Event::Opened(Some(bytes)), now);
            let settled_keys = next(f, opened.phase, g, Event::Ratcheted, now);
            let unpacked = if o.effects.complete_ratchet {
                settled_keys
            } else {
                opened
            };
            let done = next(f, unpacked.phase, g, Event::Accounted, now);
            &&& o.effects.complete_ratchet ==> opened.action == (ActionView::CompleteRatchet {
                install_kernel: o.effects.install_kernel,
            })
            &&& unpacked.action == (ActionView::Account {
                effects: o.effects,
                traffic: o.traffic,
                flush: o.flush,
            })
            &&& !o.effects.deliver ==> done.action == ActionView::Finish
            &&& o.effects.deliver ==> match done.action {
                ActionView::Deliver { body } => {
                    &&& body.len() == bytes@.len() - 2 - (bytes@[0] + bytes@[1] * 256)
                    &&& forall|i: int| 0 <= i < body.len() ==> #[trigger] body[i] == bytes@[i + 2]
                },
                _ => false,
            }
            &&& opened.guards == g && unpacked.guards == g && done.guards == g
        }),
{
    padding_is_taken_off_as_announced(bytes@);
}

/// Bytes whose padding cannot be right are refused once the keys are settled, and nothing of
/// them is accounted for.
pub proof fn wrong_padding_is_refused(
    f: PacketFacts,
    g: GuardsView,
    o: OpeningView,
    bytes: Vec<u8>,
    now: u64,
)
    requires
        bytes@.len() < 2 || bytes@[0] + bytes@[1] * 256 > bytes@.len() - 2,
    ensures
        ({
            let opened = next(f, PhaseView::Open(o), g, Event::Opened(Some(bytes)), now);
            let unpacked = if o.effects.complete_ratchet {
                next(f, opened.phase, g, Event::Ratcheted, now)
            } else {
                opened
            };
            &&& unpacked.phase == PhaseView::Done
            &&& unpacked.action == ActionView::Fail(
                if bytes@.len() < 2 {
                    PacketError::PayloadTooShort
                } else {
                    PacketError::InvalidPadding
                },
            )
        }),
{
    padding_is_taken_off_as_announced(bytes@);
}

/// A packet of ten bytes or more is taken up: its first tag is put to the session table, where
/// it has one. A shorter one is refused, and nothing is counted.
pub proof fn packet_is_taken_up_by_its_tags(f: PacketFacts, g: GuardsView, now: u64)
    ensures
        f.packet.len() < 10 <==> first_step(f, g, now).action == ActionView::Fail(
            PacketError::TooShort,
        ),
        f.packet.len() < 10 ==> first_step(f, g, now).guards == g && first_step(f, g, now).phase
            == PhaseView::Done,
        f.packet.len() >= 10 && f.tags.len() > 0 ==> first_step(f, g, now).action
            == ActionView::Ask(LookupStep::ByTag(0)) && first_step(f, g, now).guards == g,
        f.packet.len() >= 10 && f.tags.len() == 0 ==> first_step(f, g, now).action
            == ActionView::TakeSlot,
{
}

} // verus!
