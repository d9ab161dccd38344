//! Packets on their way to clients.

use crate::bytes::{be_u32, be_value};
use crate::data_plane::{
    destination_of, ipv4_addresses, is_ipv4, same_address, INNER_HEADER_LEN,
};
use crate::icmp::{build_icmp_echo_reply, echo_reply_to, is_echo_request, MAX_CHECKSUM_LEN};
use crate::ingress::{
    add_padding, capped_sum, padded, padding_is_undone, unpadded, PacketError, TrafficCounters,
    DOWNLINK_FLUSH_BYTES, DOWNLINK_OVERHEAD_ESTIMATE, POLY1305_TAG_SIZE,
};
use crate::layout::{packet_mdh_bytes_for_mask, MaskProfile, TAG_SIZE};
use vstd::prelude::*;

verus! {

/// Longest datagram that padding may fill up to.
pub const SAFE_DOWNLINK_BUDGET: usize = 1380;

/// Padding of every control message.
pub const CONTROL_PAD_LEN: u16 = 16;

/// What becomes of a packet read from the tunnel device.
pub enum TunRoute {
    /// It is dropped.
    Ignore,
    /// These bytes go back to the device.
    Reply(Vec<u8>),
    /// It goes to this worker.
    ToWorker(usize),
}

/// The packet is a ping of the server itself.
pub open spec fn pings_server(packet: Seq<u8>, server_ip: Seq<u8>) -> bool {
    is_ipv4(packet) && destination_of(packet) == server_ip && packet.len() >= 28 && packet[9] == 1
}

/// The worker that serves a destination.
pub open spec fn destination_worker(destination: Seq<u8>, workers: usize) -> usize {
    (be_value(destination) as usize % workers) as usize
}

/// The worker that serves a destination.
pub fn worker_for_destination(destination: &[u8; 4], workers: usize) -> (index: usize)
    requires
        workers > 0,
    ensures
        index == destination_worker(destination@, workers),
        index < workers,
{
    be_u32(destination) as usize % workers
}

/// Routes a packet read from the tunnel device: pings of the server are answered, packets
/// between clients are dropped where that is not allowed, the rest goes to a worker by
/// destination. `from_client` tells whether the source is a client's address.
pub fn route_tun_packet(
    packet: &[u8],
    server_ip: &[u8; 4],
    allow_peer_routing: bool,
    from_client: bool,
    workers: usize,
) -> (route: TunRoute)
    requires
        packet@.len() <= MAX_CHECKSUM_LEN,
        workers > 0,
    ensures
        match route {
            TunRoute::Reply(reply) => pings_server(packet@, server_ip@) && is_echo_request(packet@)
                && reply@ == echo_reply_to(packet@, server_ip@),
            TunRoute::ToWorker(index) => is_ipv4(packet@) && !pings_server(packet@, server_ip@) && (
            allow_peer_routing || !from_client) && index == destination_worker(
                destination_of(packet@),
                workers,
            ),
            TunRoute::Ignore => !is_ipv4(packet@) || (pings_server(packet@, server_ip@)
                && !is_echo_request(packet@)) || (!pings_server(packet@, server_ip@)
                && !allow_peer_routing && from_client),
        },
{
    match ipv4_addresses(packet) {
        None => TunRoute::Ignore,
        Some((_source, destination)) => {
            if same_address(&destination, server_ip) && packet.len() >= 28 && packet[9] == 1 {
                return match build_icmp_echo_reply(packet, server_ip) {
                    Some(reply) => TunRoute::Reply(reply),
                    None => TunRoute::Ignore,
                };
            }
            if !allow_peer_routing && from_client {
                return TunRoute::Ignore;
            }
            TunRoute::ToWorker(worker_for_destination(&destination, workers))
        },
    }
}

/// Length of a datagram to a client: tag, header, and the padding length, the inner header, the
/// packet and the padding, which are encrypted, with their authentication tag.
pub open spec fn datagram_len(header_len: int, packet_len: int, pad: int) -> int {
    TAG_SIZE + header_len + 2 + INNER_HEADER_LEN + packet_len + pad + POLY1305_TAG_SIZE
}

/// How much of the wanted padding is added: as much as the budget leaves room for.
pub open spec fn padding_for(header_len: int, packet_len: int, wanted: u16) -> int {
    let room = SAFE_DOWNLINK_BUDGET - datagram_len(header_len, packet_len, 0);
    if room <= 0 {
        0
    } else if wanted < room {
        wanted as int
    } else {
        room
    }
}

/// The padding of a packet to a client: what its mask wants, but no more than the budget
/// leaves; none where packets are not shaped or the session has no mask.
pub fn downlink_padding(
    shaping: bool,
    has_mask: bool,
    header_len: usize,
    packet_len: usize,
    wanted: u16,
) -> (pad: u16)
    requires
        datagram_len(header_len as int, packet_len as int, 0) <= usize::MAX,
    ensures
        pad == (if shaping && has_mask {
            padding_for(header_len as int, packet_len as int, wanted)
        } else {
            0
        }),
{
    if !shaping || !has_mask {
        return 0;
    }
    let base: usize = TAG_SIZE + header_len + 2 + INNER_HEADER_LEN + packet_len + POLY1305_TAG_SIZE;
    let room: u16 = if base >= SAFE_DOWNLINK_BUDGET {
        0
    } else {
        (SAFE_DOWNLINK_BUDGET - base) as u16
    };
    if wanted < room {
        wanted
    } else {
        room
    }
}

/// Padding never makes a datagram longer than the budget.
pub proof fn padding_respects_budget(header_len: int, packet_len: int, wanted: u16)
    ensures
        datagram_len(header_len, packet_len, 0) <= SAFE_DOWNLINK_BUDGET ==> datagram_len(
            header_len,
            packet_len,
            padding_for(header_len, packet_len, wanted),
        ) <= SAFE_DOWNLINK_BUDGET,
        datagram_len(header_len, packet_len, 0) > SAFE_DOWNLINK_BUDGET ==> padding_for(
            header_len,
            packet_len,
            wanted,
        ) == 0,
{
}

/// How a packet goes to a client.
pub struct DownlinkPlan {
    /// The header of the datagram.
    pub header: Vec<u8>,
    /// How much padding the packet gets.
    pub pad_len: u16,
    /// What is billed.
    pub flush: Option<u64>,
}

/// The header of a datagram: as the session's mask has it, `generated` where the mask has
/// rules for headers; the template of another mask where the session has none.
pub open spec fn downlink_header(
    mask: Option<&MaskProfile>,
    generated: Seq<u8>,
    fallback: MaskProfile,
) -> Seq<u8> {
    match mask {
        Some(m) => if m.header_min_length is Some {
            generated
        } else {
            m.header_template@
        },
        None => fallback.header_template@,
    }
}

/// Plans how a packet goes to a client, and counts it.
pub fn plan_downlink(
    mask: Option<&MaskProfile>,
    generated: Vec<u8>,
    fallback: &MaskProfile,
    shaping: bool,
    packet_len: usize,
    wanted: u16,
    traffic: &mut TrafficCounters,
    has_client: bool,
) -> (plan: DownlinkPlan)
    requires
        datagram_len(
            downlink_header(mask, generated@, *fallback).len() as int,
            packet_len as int,
            0,
        ) <= usize::MAX,
        packet_len + DOWNLINK_OVERHEAD_ESTIMATE <= u64::MAX,
    ensures
        ({
            let header = downlink_header(mask, generated@, *fallback);
            let bytes_out = capped_sum(
                old(traffic).pending_bytes_out,
                (packet_len + DOWNLINK_OVERHEAD_ESTIMATE) as u64,
            );
            let full = bytes_out >= DOWNLINK_FLUSH_BYTES;
            &&& plan.header@ == header
            &&& plan.pad_len == (if shaping && mask is Some {
                padding_for(header.len() as int, packet_len as int, wanted)
            } else {
                0
            })
            &&& plan.flush == (if full && has_client {
                Some(bytes_out)
            } else {
                None
            })
            &&& *final(traffic) == (TrafficCounters {
                pending_bytes_out: if full {
                    0
                } else {
                    bytes_out
                },
                ..*old(traffic)
            })
        }),
{
    let header: Vec<u8> = match mask {
        Some(m) => packet_mdh_bytes_for_mask(m, generated),
        None => {
            let mut template: Vec<u8> = Vec::new();
            template.extend_from_slice(fallback.header_template.as_slice());
            assert(template@ =~= fallback.header_template@);
            template
        },
    };
    let pad_len: u16 = downlink_padding(shaping, mask.is_some(), header.len(), packet_len, wanted);
    let flush: Option<u64> = traffic.account_downlink(packet_len as u64, has_client);
    DownlinkPlan { header, pad_len, flush }
}

/// What is encrypted for a client: the inner header and what it stands in front of, between
/// their padding length and their padding.
pub open spec fn downlink_text_of(inner: Seq<u8>, body: Seq<u8>, padding: Seq<u8>) -> Seq<u8> {
    padded(inner + body, padding)
}

/// What is encrypted for a client.
pub fn downlink_text(inner: &[u8; 4], body: &[u8], padding: &[u8]) -> (text: Vec<u8>)
    requires
        padding@.len() <= 65535,
    ensures
        text@ == downlink_text_of(inner@, body@, padding@),
{
    let mut whole: Vec<u8> = Vec::new();
    whole.extend_from_slice(inner.as_slice());
    whole.extend_from_slice(body);
    assert(whole@ =~= inner@ + body@);
    add_padding(whole.as_slice(), padding)
}

/// A client reads back what was sent, whatever the padding, and the datagram is as long as it
/// was planned.
pub proof fn client_reads_back_what_was_sent(inner: Seq<u8>, body: Seq<u8>, padding: Seq<u8>)
    requires
        inner.len() == INNER_HEADER_LEN,
        padding.len() <= 65535,
    ensures
        unpadded(downlink_text_of(inner, body, padding)) == Ok::<Seq<u8>, PacketError>(inner + body),
        (inner + body).skip(INNER_HEADER_LEN as int) == body,
        forall|header_len: int| #[trigger]
            datagram_len(header_len, body.len() as int, padding.len() as int) == TAG_SIZE
                + header_len + downlink_text_of(inner, body, padding).len() + POLY1305_TAG_SIZE,
{
    padding_is_undone(inner + body, padding);
    assert((inner + body).skip(INNER_HEADER_LEN as int) =~= body);
}

/// A datagram to a client: tag, header, encrypted payload.
pub fn build_packet(tag: &[u8; 8], header: &[u8], ciphertext: &[u8]) -> (packet: Vec<u8>)
    ensures
        packet@ == tag@ + header@ + ciphertext@,
{
    let mut packet: Vec<u8> = Vec::new();
    packet.extend_from_slice(tag.as_slice());
    packet.extend_from_slice(header);
    packet.extend_from_slice(ciphertext);
    assert(packet@ =~= tag@ + header@ + ciphertext@);
    packet
}

/// A packet pings the server exactly where it is IPv4, long enough for an echo request, of the
/// control protocol, and addressed to the server.
pub proof fn ping_is_for_the_server(packet: Seq<u8>, server_ip: Seq<u8>)
    requires
        server_ip.len() == 4,
    ensures
        pings_server(packet, server_ip) <==> {
            &&& packet.len() >= 28
            &&& 64 <= packet[0] <= 79
            &&& packet[9] == 1
            &&& packet[16] == server_ip[0] && packet[17] == server_ip[1]
            &&& packet[18] == server_ip[2] && packet[19] == server_ip[3]
        },
{
    if packet.len() >= 20 {
        let to = destination_of(packet);
        assert(to[0] == packet[16] && to[1] == packet[17] && to[2] == packet[18] && to[3]
            == packet[19]);
        if to[0] == server_ip[0] && to[1] == server_ip[1] && to[2] == server_ip[2] && to[3]
            == server_ip[3] {
            assert(to =~= server_ip);
        }
    }
}

/// All packets to one client go through one worker, and clients whose addresses follow each other
/// are spread over the workers in turn.
pub proof fn worker_is_told_by_the_address(a: u8, b: u8, c: u8, d: u8, workers: usize)
    requires
        workers > 0,
    ensures
        destination_worker(seq![a, b, c, d], workers) < workers,
        destination_worker(seq![a, b, c, d], workers) == (a * 16777216 + b * 65536 + c * 256 + d)
            % (workers as int),
{
    let s = seq![a, b, c, d];
    assert(s.drop_last() =~= seq![a, b, c]);
    assert(seq![a, b, c].drop_last() =~= seq![a, b]);
    assert(seq![a, b].drop_last() =~= seq![a]);
    assert(seq![a].drop_last() =~= Seq::<u8>::empty());
    assert(be_value(Seq::<u8>::empty()) == 0);
    assert(be_value(seq![a]) == a);
    assert(be_value(seq![a, b]) == a * 256 + b);
    assert(be_value(seq![a, b, c]) == a * 65536 + b * 256 + c);
    assert(be_value(s) == a * 16777216 + b * 65536 + c * 256 + d);
}

/// Padding fills what is left of 1380 bytes once tag, header, lengths, packet and seal are in, or
/// is as long as wanted where that is less; there is none where nothing is left.
pub proof fn padding_fills_what_is_left(header_len: int, packet_len: int, wanted: u16)
    ensures
        datagram_len(header_len, packet_len, 0) == header_len + packet_len + 30,
        forall|pad: int| #[trigger]
            datagram_len(header_len, packet_len, pad) == header_len + packet_len + pad + 30,
        ({
            let room = 1350 - header_len - packet_len;
            let pad = padding_for(header_len, packet_len, wanted);
            &&& room <= 0 ==> pad == 0
            &&& 0 < room <= wanted ==> pad == room
            &&& room > wanted ==> pad == wanted
        }),
{
}

/// A packet goes out under its session's mask: with a fresh header where the mask describes one,
/// else with the mask's own; without a mask it has the fallback's.
pub proof fn header_is_the_masks_own(mask: &MaskProfile, generated: Seq<u8>, fallback: MaskProfile)
    ensures
        mask.header_min_length is Some ==> downlink_header(Some(mask), generated, fallback)
            == generated,
        mask.header_min_length is None ==> downlink_header(Some(mask), generated, fallback)
            == mask.header_template@,
        downlink_header(None, generated, fallback) == fallback.header_template@,
{
}

/// What is sealed for a client begins with the length of its padding, low byte first; then come
/// the inner header, the packet and the padding, byte for byte.
pub proof fn sealed_text_is_in_order(inner: Seq<u8>, body: Seq<u8>, padding: Seq<u8>, i: int)
    requires
        padding.len() <= 65535,
    ensures
        ({
            let text = downlink_text_of(inner, body, padding);
            let n = inner.len() as int;
            let m = body.len() as int;
            &&& text.len() == 2 + n + m + padding.len()
            &&& text[0] + 256 * text[1] == padding.len()
            &&& 0 <= i < n ==> text[2 + i] == inner[i]
            &&& 0 <= i < m ==> text[2 + n + i] == body[i]
            &&& 0 <= i < padding.len() ==> text[2 + n + m + i] == padding[i]
        }),
{
}

} // verus!
