//! What happens to the packets inside the tunnel: gates, routes and loss recovery.

use crate::ingress::PacketError;
use vstd::prelude::*;
use vstd::slice::slice_subrange;

verus! {

/// Shortest decrypted payload that holds an inner header.
pub const INNER_HEADER_LEN: usize = 4;

/// Most bytes of a packet that take part in loss recovery.
pub const FEC_MAX_LEN: usize = 1500;

/// What a decrypted payload holds.
#[derive(Clone, Copy, PartialEq, Eq, Structural)]
pub enum InnerKind {
    Data,
    Control,
    Fragment,
    Ack,
    FecRepair,
}

/// What becomes of a decrypted payload.
#[derive(Clone, Copy, PartialEq, Eq, Structural)]
pub enum InnerStep {
    /// It is a packet, on which a verdict is due.
    Packet,
    /// It is a message to the server.
    Message,
    /// It is parity of a group of packets.
    Repair,
    /// Nothing is done with it.
    Ignore,
}

/// The payload behind the inner header.
pub fn inner_payload(plaintext: &[u8]) -> (payload: Result<&[u8], PacketError>)
    ensures
        match payload {
            Ok(p) => plaintext@.len() >= INNER_HEADER_LEN && p@ == plaintext@.skip(
                INNER_HEADER_LEN as int,
            ),
            Err(e) => plaintext@.len() < INNER_HEADER_LEN && e == PacketError::InnerTooShort,
        },
{
    if plaintext.len() < INNER_HEADER_LEN {
        return Err(PacketError::InnerTooShort);
    }
    let payload: &[u8] = slice_subrange(plaintext, INNER_HEADER_LEN, plaintext.len());
    assert(payload@ =~= plaintext@.skip(INNER_HEADER_LEN as int));
    Ok(payload)
}

/// What is done with a payload of some kind.
pub fn inner_step(kind: InnerKind) -> (step: InnerStep)
    ensures
        step == (match kind {
            InnerKind::Data => InnerStep::Packet,
            InnerKind::Control => InnerStep::Message,
            InnerKind::FecRepair => InnerStep::Repair,
            InnerKind::Fragment | InnerKind::Ack => InnerStep::Ignore,
        }),
{
    match kind {
        InnerKind::Data => InnerStep::Packet,
        InnerKind::Control => InnerStep::Message,
        InnerKind::FecRepair => InnerStep::Repair,
        InnerKind::Fragment | InnerKind::Ack => InnerStep::Ignore,
    }
}

/// Whether bytes are an IPv4 packet with a full header.
pub open spec fn is_ipv4(payload: Seq<u8>) -> bool {
    payload.len() >= 20 && payload[0] / 16 == 4
}

/// Where an IPv4 packet comes from.
pub open spec fn source_of(payload: Seq<u8>) -> Seq<u8> {
    payload.subrange(12, 16)
}

/// Where an IPv4 packet goes to.
pub open spec fn destination_of(payload: Seq<u8>) -> Seq<u8> {
    payload.subrange(16, 20)
}

/// The source and destination of an IPv4 packet; `None` for anything else.
pub fn ipv4_addresses(payload: &[u8]) -> (addresses: Option<([u8; 4], [u8; 4])>)
    ensures
        match addresses {
            Some(a) => is_ipv4(payload@) && a.0@ == source_of(payload@) && a.1@ == destination_of(
                payload@,
            ),
            None => !is_ipv4(payload@),
        },
{
    if payload.len() < 20 || payload[0] / 16 != 4 {
        return None;
    }
    let source: [u8; 4] = [payload[12], payload[13], payload[14], payload[15]];
    let destination: [u8; 4] = [payload[16], payload[17], payload[18], payload[19]];
    assert(source@ =~= source_of(payload@));
    assert(destination@ =~= destination_of(payload@));
    Some((source, destination))
}

/// What becomes of a packet that a client sends through the tunnel.
#[derive(Clone, Copy, PartialEq, Eq, Structural)]
pub enum DataVerdict {
    /// It goes on.
    Forward,
    /// The client still owes its certificate.
    Unauthenticated,
    /// It is not an IPv4 packet.
    NotIpv4,
    /// It does not come from the address the client was given.
    Spoofed,
    /// It goes to another client, which is not allowed.
    ToPeer,
}

/// The verdict on a packet: certificate, form, source and destination are checked in turn.
pub open spec fn verdict_on(
    payload: Seq<u8>,
    certified: bool,
    vpn_ip: Option<Seq<u8>>,
    allow_peer_routing: bool,
    to_client: bool,
) -> DataVerdict {
    if !certified {
        DataVerdict::Unauthenticated
    } else if !is_ipv4(payload) {
        DataVerdict::NotIpv4
    } else if vpn_ip is Some && source_of(payload) != vpn_ip->0 {
        DataVerdict::Spoofed
    } else if !allow_peer_routing && to_client {
        DataVerdict::ToPeer
    } else {
        DataVerdict::Forward
    }
}

/// Whether two addresses are the same.
pub fn same_address(a: &[u8; 4], b: &[u8; 4]) -> (r: bool)
    ensures
        r == (a@ == b@),
{
    proof {
        if a@[0] == b@[0] && a@[1] == b@[1] && a@[2] == b@[2] && a@[3] == b@[3] {
            assert(a@ =~= b@);
        }
    }
    a[0] == b[0] && a[1] == b[1] && a[2] == b[2] && a[3] == b[3]
}

/// The view of an optional address.
pub open spec fn address_view(ip: Option<[u8; 4]>) -> Option<Seq<u8>> {
    match ip {
        Some(a) => Some(a@),
        None => None,
    }
}

/// The verdict on a packet that a client sends through the tunnel. `to_client` tells whether
/// its destination is the address of another client.
pub fn data_verdict(
    payload: &[u8],
    certified: bool,
    vpn_ip: Option<[u8; 4]>,
    allow_peer_routing: bool,
    to_client: bool,
) -> (verdict: DataVerdict)
    ensures
        verdict == verdict_on(
            payload@,
            certified,
            address_view(vpn_ip),
            allow_peer_routing,
            to_client,
        ),
{
    if !certified {
        return DataVerdict::Unauthenticated;
    }
    match ipv4_addresses(payload) {
        None => DataVerdict::NotIpv4,
        Some((source, _destination)) => {
            match vpn_ip {
                Some(ip) => {
                    if !same_address(&source, &ip) {
                        return DataVerdict::Spoofed;
                    }
                },
                None => {},
            }
            if !allow_peer_routing && to_client {
                DataVerdict::ToPeer
            } else {
                DataVerdict::Forward
            }
        },
    }
}

/// Nothing that claims another source than the address its client was given is forwarded.
pub proof fn forwarded_packets_are_not_spoofed(
    payload: Seq<u8>,
    certified: bool,
    vpn_ip: Seq<u8>,
    allow_peer_routing: bool,
    to_client: bool,
)
    requires
        verdict_on(payload, certified, Some(vpn_ip), allow_peer_routing, to_client)
            == DataVerdict::Forward,
    ensures
        certified,
        is_ipv4(payload),
        source_of(payload) == vpn_ip,
        to_client ==> allow_peer_routing,
{
}

/// The way a packet leaves the tunnel.
#[derive(Clone, Copy, PartialEq, Eq, Structural)]
pub enum Egress {
    /// To the next server of a chain.
    Chain,
    /// To the tunnel device.
    Tun,
    /// To the address translator.
    Nat,
    /// There is no way out.
    Nowhere,
}

/// The way a packet leaves the tunnel: through the chain where there is one, except from
/// another site; else through the device, else through the translator.
pub fn choose_egress(has_chain: bool, is_site_peer: bool, has_tun: bool, has_nat: bool) -> (egress:
    Egress)
    ensures
        egress == (if has_chain && !is_site_peer {
            Egress::Chain
        } else if has_tun {
            Egress::Tun
        } else if has_nat {
            Egress::Nat
        } else {
            Egress::Nowhere
        }),
{
    if has_chain && !is_site_peer {
        Egress::Chain
    } else if has_tun {
        Egress::Tun
    } else if has_nat {
        Egress::Nat
    } else {
        Egress::Nowhere
    }
}

/// What is known of a session when it sends a packet, and of the ways out of the tunnel.
#[derive(Clone, Copy)]
pub struct SenderFacts {
    pub certified: bool,
    pub vpn_ip: Option<[u8; 4]>,
    pub has_client: bool,
    pub is_site_peer: bool,
    pub allow_peer_routing: bool,
    pub has_chain: bool,
    pub has_tun: bool,
    pub has_nat: bool,
}

/// What becomes of a packet that a session sends.
#[derive(Clone, Copy, PartialEq, Eq, Structural)]
pub enum PacketStep {
    /// It is dropped, for this reason.
    Drop(DataVerdict),
    /// The client's quota is asked first.
    AskQuota(Egress),
    /// It leaves this way.
    Route(Egress),
}

/// The way out for a session's packets.
pub open spec fn egress_of(facts: SenderFacts) -> Egress {
    if facts.has_chain && !facts.is_site_peer {
        Egress::Chain
    } else if facts.has_tun {
        Egress::Tun
    } else if facts.has_nat {
        Egress::Nat
    } else {
        Egress::Nowhere
    }
}

/// What becomes of a packet: it passes the gates, then its client's quota, then it leaves.
pub open spec fn packet_step_of(payload: Seq<u8>, facts: SenderFacts, to_client: bool) -> PacketStep {
    let verdict = verdict_on(
        payload,
        facts.certified,
        address_view(facts.vpn_ip),
        facts.allow_peer_routing,
        to_client,
    );
    if verdict != DataVerdict::Forward {
        PacketStep::Drop(verdict)
    } else if facts.has_client {
        PacketStep::AskQuota(egress_of(facts))
    } else {
        PacketStep::Route(egress_of(facts))
    }
}

/// What becomes of a packet that a session sends. `to_client` tells whether its destination is
/// the address of another client.
pub fn packet_step(payload: &[u8], facts: &SenderFacts, to_client: bool) -> (step: PacketStep)
    ensures
        step == packet_step_of(payload@, *facts, to_client),
{
    let verdict: DataVerdict = data_verdict(
        payload,
        facts.certified,
        facts.vpn_ip,
        facts.allow_peer_routing,
        to_client,
    );
    match verdict {
        DataVerdict::Forward => {
            let egress: Egress = choose_egress(
                facts.has_chain,
                facts.is_site_peer,
                facts.has_tun,
                facts.has_nat,
            );
            if facts.has_client {
                PacketStep::AskQuota(egress)
            } else {
                PacketStep::Route(egress)
            }
        },
        _ => PacketStep::Drop(verdict),
    }
}

/// The way out of a packet once its client's quota is known; `None` where there is no more.
pub fn after_quota(egress: Egress, within: bool) -> (way: Option<Egress>)
    ensures
        way == (if within {
            Some(egress)
        } else {
            None
        }),
{
    if within {
        Some(egress)
    } else {
        None
    }
}

/// What becomes of a packet that was recovered from parity. It passes the same gates, except
/// that the session is not asked for its certificate or its quota again.
pub open spec fn recovered_step_of(payload: Seq<u8>, facts: SenderFacts, to_client: bool) -> Option<
    Egress,
> {
    let verdict = verdict_on(
        payload,
        true,
        address_view(facts.vpn_ip),
        facts.allow_peer_routing,
        to_client,
    );
    if verdict == DataVerdict::Forward {
        Some(egress_of(facts))
    } else {
        None
    }
}

/// The way out of a packet that was recovered from parity; `None` where it is dropped.
pub fn recovered_step(payload: &[u8], facts: &SenderFacts, to_client: bool) -> (way: Option<Egress>)
    ensures
        way == recovered_step_of(payload@, *facts, to_client),
{
    match data_verdict(payload, true, facts.vpn_ip, facts.allow_peer_routing, to_client) {
        DataVerdict::Forward => Some(
            choose_egress(facts.has_chain, facts.is_site_peer, facts.has_tun, facts.has_nat),
        ),
        _ => None,
    }
}

/// Whatever leaves the tunnel is an IPv4 packet from the address of its session, and goes to
/// another client only where that is allowed; what was not recovered from parity comes from a
/// session with its certificate.
pub proof fn packets_that_leave_passed_the_gates(
    payload: Seq<u8>,
    facts: SenderFacts,
    to_client: bool,
)
    requires
        !(packet_step_of(payload, facts, to_client) is Drop) || recovered_step_of(
            payload,
            facts,
            to_client,
        ) is Some,
    ensures
        is_ipv4(payload),
        facts.vpn_ip matches Some(ip) ==> source_of(payload) == ip@,
        to_client ==> facts.allow_peer_routing,
        !(packet_step_of(payload, facts, to_client) is Drop) ==> facts.certified,
{
}

/// A byte of a packet, taken as zero beyond its end.
pub open spec fn byte_at(s: Seq<u8>, i: int) -> u8 {
    if 0 <= i < s.len() {
        s[i]
    } else {
        0
    }
}

/// The part of a packet that takes part in loss recovery.
pub open spec fn fec_part(payload: Seq<u8>) -> Seq<u8> {
    if payload.len() > FEC_MAX_LEN {
        payload.take(FEC_MAX_LEN as int)
    } else {
        payload
    }
}

/// Parity of the packets of one group that have arrived.
pub struct FecState {
    pub xor_buf: Vec<u8>,
    pub xor_len: usize,
    pub recv_count: u8,
    pub pending_seq: u16,
}

/// The longer of two lengths.
pub open spec fn longer(a: int, b: int) -> int {
    if a < b {
        b
    } else {
        a
    }
}

impl FecState {
    /// No packet of group `seq` has arrived.
    pub open spec fn is_clear(&self, seq: u16) -> bool {
        &&& forall|i: int| #[trigger] byte_at(self.xor_buf@, i) == 0
        &&& self.xor_len == 0
        &&& self.recv_count == 0
        &&& self.pending_seq == seq
    }

    /// The state before any packet.
    pub fn new() -> (state: FecState)
        ensures
            state.is_clear(0),
    {
        FecState { xor_buf: Vec::new(), xor_len: 0, recv_count: 0, pending_seq: 0 }
    }

    /// Takes in a packet that has arrived.
    pub fn accumulate(&mut self, payload: &[u8])
        ensures
            forall|i: int| #[trigger]
                byte_at(final(self).xor_buf@, i) == byte_at(old(self).xor_buf@, i) ^ byte_at(
                    fec_part(payload@),
                    i,
                ),
            final(self).xor_len == longer(
                old(self).xor_len as int,
                fec_part(payload@).len() as int,
            ),
            final(self).recv_count == (if old(self).recv_count < u8::MAX {
                (old(self).recv_count + 1) as u8
            } else {
                u8::MAX
            }),
            final(self).pending_seq == old(self).pending_seq,
    {
        let len: usize = if payload.len() > FEC_MAX_LEN {
            FEC_MAX_LEN
        } else {
            payload.len()
        };
        let ghost part = fec_part(payload@);
        let ghost before = self.xor_buf@;
        let mut buf: Vec<u8> = Vec::new();
        std::mem::swap(&mut buf, &mut self.xor_buf);
        while buf.len() < len
            invariant
                forall|i: int| #[trigger] byte_at(buf@, i) == byte_at(before, i),
            decreases len - buf.len(),
        {
            let ghost shorter = buf@;
            buf.push(0);
            assert forall|i: int| #[trigger] byte_at(buf@, i) == byte_at(before, i) by {
                assert(byte_at(buf@, i) == byte_at(shorter, i));
            }
        }
        let mut i: usize = 0;
        while i < len
            invariant
                i <= len,
                len <= buf@.len(),
                len <= payload@.len(),
                part == fec_part(payload@),
                part.len() == len,
                forall|k: int| #[trigger]
                    byte_at(buf@, k) == (if 0 <= k < i {
                        byte_at(before, k) ^ byte_at(part, k)
                    } else {
                        byte_at(before, k)
                    }),
            decreases len - i,
        {
            let ghost prev = buf@;
            let x: u8 = buf[i] ^ payload[i];
            buf[i] = x;
            assert forall|k: int| #[trigger] byte_at(buf@, k) == (if 0 <= k < i + 1 {
                byte_at(before, k) ^ byte_at(part, k)
            } else {
                byte_at(before, k)
            }) by {
                assert(byte_at(prev, k) == (if 0 <= k < i {
                    byte_at(before, k) ^ byte_at(part, k)
                } else {
                    byte_at(before, k)
                }));
            }
            i += 1;
        }
        assert forall|k: int| #[trigger] byte_at(buf@, k) == byte_at(before, k) ^ byte_at(
            part,
            k,
        ) by {
            let x = byte_at(before, k);
            assert(x ^ 0u8 == x) by (bit_vector);
        }
        self.xor_buf = buf;
        if len > self.xor_len {
            self.xor_len = len;
        }
        self.recv_count = self.recv_count.saturating_add(1);
    }

    /// Takes in a packet that was to leave the tunnel. One that could not be handed over does
    /// not count.
    pub fn note_routed(&mut self, payload: &[u8], handed_over: bool)
        ensures
            !handed_over ==> *final(self) == *old(self),
            handed_over ==> forall|i: int| #[trigger]
                byte_at(final(self).xor_buf@, i) == byte_at(old(self).xor_buf@, i) ^ byte_at(
                    fec_part(payload@),
                    i,
                ),
            handed_over ==> final(self).xor_len == longer(
                old(self).xor_len as int,
                fec_part(payload@).len() as int,
            ),
            handed_over ==> final(self).recv_count == (if old(self).recv_count < u8::MAX {
                (old(self).recv_count + 1) as u8
            } else {
                u8::MAX
            }),
            final(self).pending_seq == old(self).pending_seq,
    {
        if handed_over {
            self.accumulate(payload);
        }
    }

    /// Takes in the parity of a group. Where exactly one packet of the expected group is
    /// missing the result is that packet; the state is cleared for the next group either way.
    /// A group without packets is ignored.
    pub fn repair(&mut self, group_seq: u16, group_size: u8, xor_data: &[u8]) -> (recovered:
        Option<Vec<u8>>)
        ensures
            recovered is Some <==> group_size > 0 && group_seq == old(self).pending_seq && old(
                self,
            ).recv_count == group_size - 1,
            recovered is Some ==> {
                &&& recovered->0@.len() == longer(old(self).xor_len as int, xor_data@.len() as int)
                &&& forall|i: int|
                    0 <= i < recovered->0@.len() ==> #[trigger] recovered->0@[i] == byte_at(
                        xor_data@,
                        i,
                    ) ^ byte_at(old(self).xor_buf@, i)
            },
            group_size == 0 ==> *final(self) == *old(self),
            group_size > 0 ==> final(self).is_clear(
                if group_seq == u16::MAX {
                    0
                } else {
                    (group_seq + 1) as u16
                },
            ),
    {
        if group_size == 0 {
            return None;
        }
        let mut recovered: Option<Vec<u8>> = None;
        if group_seq == self.pending_seq && self.recv_count == group_size - 1 {
            let len: usize = if self.xor_len < xor_data.len() {
                xor_data.len()
            } else {
                self.xor_len
            };
            let mut out: Vec<u8> = Vec::new();
            let mut i: usize = 0;
            while i < len
                invariant
                    i <= len,
                    out@.len() == i,
                    forall|k: int|
                        0 <= k < i ==> #[trigger] out@[k] == byte_at(xor_data@, k) ^ byte_at(
                            self.xor_buf@,
                            k,
                        ),
                decreases len - i,
            {
                let a: u8 = if i < xor_data.len() {
                    xor_data[i]
                } else {
                    0
                };
                let b: u8 = if i < self.xor_buf.len() {
                    self.xor_buf[i]
                } else {
                    0
                };
                out.push(a ^ b);
                i += 1;
            }
            recovered = Some(out);
        }
        let zeros: usize = self.xor_buf.len();
        self.xor_buf = vec![0u8; zeros];
        self.xor_len = 0;
        self.recv_count = 0;
        self.pending_seq = group_seq.wrapping_add(1);
        recovered
    }
}

/// Byte `i` of the parity of a group.
pub open spec fn parity(group: Seq<Seq<u8>>, i: int) -> u8
    decreases group.len(),
{
    if group.len() == 0 {
        0
    } else {
        parity(group.drop_last(), i) ^ byte_at(group.last(), i)
    }
}

/// The parity of a whole group together with that of all but one of its packets gives back
/// the bytes of the missing one.
pub proof fn missing_packet_is_recovered(group: Seq<Seq<u8>>, missing: int, i: int)
    requires
        0 <= missing < group.len(),
    ensures
        parity(group, i) ^ parity(group.remove(missing), i) == byte_at(group[missing], i),
    decreases group.len(),
{
    let last = group.last();
    let rest = group.drop_last();
    let left = group.remove(missing);
    if missing == group.len() - 1 {
        assert(left =~= rest);
        let p = parity(rest, i);
        let x = byte_at(last, i);
        assert((p ^ x) ^ p == x) by (bit_vector);
    } else {
        missing_packet_is_recovered(rest, missing, i);
        assert(left.drop_last() =~= rest.remove(missing));
        assert(left.last() == last);
        assert(rest[missing] == group[missing]);
        let p = parity(rest, i);
        let q = parity(rest.remove(missing), i);
        let x = byte_at(last, i);
        let y = byte_at(group[missing], i);
        assert((p ^ x) ^ (q ^ x) == p ^ q) by (bit_vector);
    }
}

/// Taking in one packet after the other keeps the parity of those that have arrived.
pub proof fn parity_grows_with_each_packet(group: Seq<Seq<u8>>, packet: Seq<u8>, i: int)
    ensures
        parity(group.push(packet), i) == parity(group, i) ^ byte_at(packet, i),
{
    assert(group.push(packet).drop_last() =~= group);
}

/// Each gate drops exactly what it is for: a session without its certificate, bytes that are no
/// IPv4 packet with a whole header, another source than the session's address, and another
/// client as destination where that is not allowed. What all let through goes on.
pub proof fn gates_drop_what_they_are_for(
    payload: Seq<u8>,
    certified: bool,
    vpn_ip: Option<Seq<u8>>,
    allow_peer_routing: bool,
    to_client: bool,
)
    requires
        vpn_ip matches Some(ip) ==> ip.len() == 4,
    ensures
        ({
            let v = verdict_on(payload, certified, vpn_ip, allow_peer_routing, to_client);
            let ipv4 = payload.len() >= 20 && 64 <= payload[0] <= 79;
            let own = vpn_ip matches Some(ip) ==> payload[12] == ip[0] && payload[13] == ip[1]
                && payload[14] == ip[2] && payload[15] == ip[3];
            let peer = to_client && !allow_peer_routing;
            &&& v == DataVerdict::Unauthenticated <==> !certified
            &&& v == DataVerdict::NotIpv4 <==> certified && !ipv4
            &&& v == DataVerdict::Spoofed <==> certified && ipv4 && !own
            &&& v == DataVerdict::ToPeer <==> certified && ipv4 && own && peer
            &&& v == DataVerdict::Forward <==> certified && ipv4 && own && !peer
        }),
{
    if payload.len() >= 20 && vpn_ip is Some {
        let ip = vpn_ip->0;
        let source = source_of(payload);
        assert(source[0] == payload[12] && source[1] == payload[13] && source[2] == payload[14]
            && source[3] == payload[15]);
        if source[0] == ip[0] && source[1] == ip[1] && source[2] == ip[2] && source[3] == ip[3] {
            assert(source =~= ip);
        }
    }
}

/// An IPv4 packet's addresses are its bytes 12 to 15 and 16 to 19.
pub proof fn addresses_stand_in_the_header(payload: Seq<u8>, i: int)
    requires
        payload.len() >= 20,
        0 <= i < 4,
    ensures
        source_of(payload).len() == 4,
        source_of(payload)[i] == payload[12 + i],
        destination_of(payload).len() == 4,
        destination_of(payload)[i] == payload[16 + i],
        is_ipv4(payload) <==> 64 <= payload[0] <= 79,
{
}

/// A packet that passes the gates leaves through the chain exactly where there is one and its
/// sender is no peer site, else through the device, else through the translator, else nowhere.
pub proof fn way_out_is_the_first_there_is(payload: Seq<u8>, facts: SenderFacts, to_client: bool)
    ensures
        match packet_step_of(payload, facts, to_client) {
            PacketStep::Drop(_) => true,
            PacketStep::AskQuota(way) | PacketStep::Route(way) => {
                let chained = facts.has_chain && !facts.is_site_peer;
                &&& way == Egress::Chain <==> chained
                &&& way == Egress::Tun <==> !chained && facts.has_tun
                &&& way == Egress::Nat <==> !chained && !facts.has_tun && facts.has_nat
                &&& way == Egress::Nowhere <==> !chained && !facts.has_tun && !facts.has_nat
            },
        },
        match recovered_step_of(payload, facts, to_client) {
            None => true,
            Some(way) => {
                let chained = facts.has_chain && !facts.is_site_peer;
                &&& way == Egress::Chain <==> chained
                &&& way == Egress::Tun <==> !chained && facts.has_tun
                &&& way == Egress::Nat <==> !chained && !facts.has_tun && facts.has_nat
                &&& way == Egress::Nowhere <==> !chained && !facts.has_tun && !facts.has_nat
            },
        },
{
}

/// Having a client to bill decides whether the quota is asked, and nothing else: neither whether
/// the packet is dropped nor which way it leaves.
pub proof fn client_decides_only_on_the_quota(payload: Seq<u8>, facts: SenderFacts, to_client: bool)
    ensures
        ({
            let billed = packet_step_of(
                payload,
                SenderFacts { has_client: true, ..facts },
                to_client,
            );
            let free = packet_step_of(
                payload,
                SenderFacts { has_client: false, ..facts },
                to_client,
            );
            match free {
                PacketStep::Route(way) => billed == PacketStep::AskQuota(way),
                PacketStep::Drop(why) => billed == PacketStep::Drop(why),
                PacketStep::AskQuota(_) => false,
            }
        }),
{
}

/// A packet is dropped exactly where the verdict on it is not to forward it, and for the reason
/// that the verdict gives; the way out plays no part in it.
pub proof fn packet_is_dropped_by_its_gates(payload: Seq<u8>, facts: SenderFacts, to_client: bool)
    ensures
        ({
            let verdict = verdict_on(
                payload,
                facts.certified,
                match facts.vpn_ip {
                    Some(ip) => Some(ip@),
                    None => None,
                },
                facts.allow_peer_routing,
                to_client,
            );
            &&& packet_step_of(payload, facts, to_client) is Drop <==> verdict
                != DataVerdict::Forward
            &&& packet_step_of(payload, facts, to_client) matches PacketStep::Drop(why) ==> why
                == verdict
        }),
{
}

/// A packet recovered from parity leaves exactly where it would have, had it arrived on a
/// session with its certificate and within its quota.
pub proof fn recovered_packet_leaves_as_if_it_had_arrived(
    payload: Seq<u8>,
    facts: SenderFacts,
    to_client: bool,
)
    ensures
        ({
            let arrived = packet_step_of(
                payload,
                SenderFacts { certified: true, has_client: false, ..facts },
                to_client,
            );
            match recovered_step_of(payload, facts, to_client) {
                Some(way) => arrived == PacketStep::Route(way),
                None => arrived is Drop,
            }
        }),
{
}

/// The first 1500 bytes of a packet take part in loss recovery, and a shorter packet counts as
/// followed by zeros.
pub proof fn loss_recovery_reads_the_front(payload: Seq<u8>, i: int)
    ensures
        fec_part(payload).len() == (if payload.len() < 1500 {
            payload.len() as int
        } else {
            1500
        }),
        0 <= i < 1500 && i < payload.len() ==> byte_at(fec_part(payload), i) == payload[i],
        i < 0 || i >= 1500 || i >= payload.len() ==> byte_at(fec_part(payload), i) == 0,
{
}

/// The longer of two lengths is one of them, and no less than either.
pub proof fn longer_is_no_less_than_either(a: int, b: int)
    ensures
        longer(a, b) >= a && longer(a, b) >= b,
        longer(a, b) == a || longer(a, b) == b,
{
}

/// The parity of a group does not depend on the order in which its packets arrive, and a packet
/// that is taken in twice cancels out.
pub proof fn parity_ignores_order(group: Seq<Seq<u8>>, a: Seq<u8>, b: Seq<u8>, i: int)
    ensures
        parity(group.push(a).push(b), i) == parity(group.push(b).push(a), i),
        parity(group.push(a).push(a), i) == parity(group, i),
        parity(seq![a], i) == byte_at(a, i),
        parity(seq![], i) == 0,
{
    parity_grows_with_each_packet(group, a, i);
    parity_grows_with_each_packet(group, b, i);
    parity_grows_with_each_packet(group.push(a), b, i);
    parity_grows_with_each_packet(group.push(b), a, i);
    parity_grows_with_each_packet(group.push(a), a, i);
    let p = parity(group, i);
    let x = byte_at(a, i);
    let y = byte_at(b, i);
    assert((p ^ x) ^ y == (p ^ y) ^ x) by (bit_vector);
    assert((p ^ x) ^ x == p) by (bit_vector);
    assert(seq![a].drop_last() =~= Seq::<Seq<u8>>::empty());
    assert(seq![a].last() == a);
    assert(parity(seq![a].drop_last(), i) == 0);
    assert(0u8 ^ x == x) by (bit_vector);
}

/// A state that is clear for a group holds nothing of any packet, and waits for that group.
pub proof fn clear_state_holds_nothing(state: FecState, seq: u16, i: int)
    requires
        state.is_clear(seq),
    ensures
        state.pending_seq == seq,
        state.recv_count == 0,
        state.xor_len == 0,
        0 <= i < state.xor_buf@.len() ==> state.xor_buf@[i] == 0,
{
    assert(byte_at(state.xor_buf@, i) == 0);
}

} // verus!
