//! Reading what a traffic classifier says of a mask, and the packets it was shown.

use crate::text::{
    chars_of, find_part, lower, same_but_for_case, stands_at, trim, trimmed,
};
use vstd::prelude::*;
use vstd::slice::slice_subrange;

verus! {

/// Words that show that traffic reads as a tunnel.
pub const TUNNEL_WORDS: [&'static str; 5] = [
    "OPENVPN",
    "WIREGUARD",
    "OBFUSCATED",
    "TOR",
    "ANONYMOUS SUBSCRIBER",
];

/// The word stands somewhere in the text, in whatever case.
pub open spec fn holds_word(text: Seq<char>, word: Seq<char>) -> bool {
    exists|at: int|
        0 <= at && at + word.len() <= text.len() && same_but_for_case(
            #[trigger] text.subrange(at, at + word.len()),
            word,
        )
}

/// The text names a tunnel.
pub open spec fn names_tunnel(text: Seq<char>) -> bool {
    exists|i: int| 0 <= i < TUNNEL_WORDS@.len() && holds_word(text, (#[trigger] TUNNEL_WORDS@[i])@)
}

/// A part first stands at a place, at or behind another.
pub open spec fn first_from(text: Seq<char>, part: Seq<char>, from: int, at: int) -> bool {
    from <= at && stands_at(text, part, at) && forall|k: int|
        from <= k < at ==> !#[trigger] stands_at(text, part, k)
}

/// A part does not stand at or behind a place.
pub open spec fn none_from(text: Seq<char>, part: Seq<char>, from: int) -> bool {
    forall|k: int| from <= k ==> !#[trigger] stands_at(text, part, k)
}

/// `end` is where the part first stands at or behind a place, or the end of the text.
pub open spec fn ends_at(text: Seq<char>, part: Seq<char>, from: int, end: int) -> bool {
    first_from(text, part, from, end) || (none_from(text, part, from) && end == text.len())
}

/// The first `[proto: NUMBER/NAME]` of a text gives this name. The name ends at a slash, at
/// the closing bracket, at the next such mark or at the end of the text; without a slash
/// there is none.
pub open spec fn names_protocol(text: Seq<char>, name: Seq<char>) -> bool {
    exists|mark: int, next: int, close: int, slash: int, end: int| #[trigger]
        is_protocol_at(text, name, mark, next, close, slash, end)
}

/// As [`names_protocol`], with the places: `inner` is cut at `close`, which is the first
/// closing bracket in front of the next mark.
pub open spec fn is_protocol_at(
    text: Seq<char>,
    name: Seq<char>,
    mark: int,
    next: int,
    close: int,
    slash: int,
    end: int,
) -> bool {
    let part = "[proto: "@;
    let start = mark + part.len();
    &&& first_from(text, part, 0, mark)
    &&& ends_at(text, part, start, next)
    &&& ends_at(text.take(next), "]"@, start, close)
    &&& first_from(text.take(close), "/"@, start, slash)
    &&& ends_at(text.take(close), "/"@, slash + 1, end)
    &&& name == trimmed(text.subrange(slash + 1, end))
}

fn holds_word_exec(text: &[char], word: &[char]) -> (r: bool)
    ensures
        r == holds_word(text@, word@),
{
    if word.len() > text.len() {
        return false;
    }
    let mut at: usize = 0;
    while at <= text.len() - word.len()
        invariant
            word.len() <= text.len(),
            at <= text.len() - word.len() + 1,
            forall|k: int|
                0 <= k < at ==> !same_but_for_case(
                    #[trigger] text@.subrange(k, k + word@.len()),
                    word@,
                ),
        decreases text.len() + 1 - at,
    {
        let ghost here = text@.subrange(at as int, at + word@.len());
        let mut i: usize = 0;
        let mut same: bool = true;
        while i < word.len() && same
            invariant
                i <= word.len(),
                at + word.len() <= text.len(),
                here == text@.subrange(at as int, at + word@.len()),
                same ==> forall|k: int| 0 <= k < i ==> lower(#[trigger] here[k]) == lower(word@[k]),
                !same ==> !same_but_for_case(here, word@),
            decreases word.len() - i,
        {
            assert(here[i as int] == text@[at + i]);
            if lower_of(text[at + i]) != lower_of(word[i]) {
                same = false;
            }
            i += 1;
        }
        if same {
            assert(same_but_for_case(here, word@));
            return true;
        }
        if at == text.len() {
            return false;
        }
        at += 1;
    }
    false
}

fn lower_of(c: char) -> (l: char)
    ensures
        l == lower(c),
{
    if 'A' <= c && c <= 'Z' {
        (c as u8 + 32) as char
    } else {
        c
    }
}

fn names_tunnel_exec(text: &[char]) -> (r: bool)
    ensures
        r == names_tunnel(text@),
{
    let mut i: usize = 0;
    while i < 5
        invariant
            i <= 5,
            forall|k: int| 0 <= k < i ==> !holds_word(text@, (#[trigger] TUNNEL_WORDS@[k])@),
        decreases 5 - i,
    {
        let word: Vec<char> = chars_of(TUNNEL_WORDS[i]);
        if holds_word_exec(text, word.as_slice()) {
            assert(holds_word(text@, TUNNEL_WORDS@[i as int]@));
            return true;
        }
        i += 1;
    }
    false
}

/// Looks for a part in the first `to` characters of a text, at or behind a place.
fn place_of(text: &[char], part: &[char], from: usize, to: usize) -> (at: Option<usize>)
    requires
        from <= to <= text@.len(),
    ensures
        match at {
            Some(a) => first_from(text@.take(to as int), part@, from as int, a as int),
            None => none_from(text@.take(to as int), part@, from as int),
        },
{
    let head: &[char] = slice_subrange(text, 0, to);
    assert(head@ =~= text@.take(to as int));
    find_part(head, part, from)
}

fn or_end(at: Option<usize>, end: usize) -> (place: usize)
    ensures
        place == (match at {
            Some(a) => a,
            None => end,
        }),
{
    match at {
        Some(a) => a,
        None => end,
    }
}

/// What the classifier's output says: the protocol that it names, `Unknown` where it names
/// none, and whether it names a tunnel.
pub fn parse_ndpi(out: &str) -> (verdict: (String, bool))
    ensures
        verdict.1 == names_tunnel(out@),
        names_protocol(out@, verdict.0@) || (verdict.0@ == "Unknown"@ && forall|name: Seq<char>|
            !#[trigger] names_protocol(out@, name)),
{
    let text: Vec<char> = chars_of(out);
    let risk: bool = names_tunnel_exec(text.as_slice());
    let mark_part: Vec<char> = chars_of("[proto: ");
    let close_part: Vec<char> = chars_of("]");
    let slash_part: Vec<char> = chars_of("/");
    proof {
        reveal_strlit("[proto: ");
        reveal_strlit("]");
        reveal_strlit("/");
        assert(text@.take(text@.len() as int) =~= text@);
    }
    let mark: usize = match find_part(text.as_slice(), mark_part.as_slice(), 0) {
        Some(at) => {
            assert(stands_at(text@, mark_part@, at as int));
            at
        },
        None => {
            return ("Unknown".to_owned(), risk);
        },
    };
    assert(mark + mark_part.len() <= text.len());
    let start: usize = mark + mark_part.len();
    let next: usize = or_end(
        find_part(text.as_slice(), mark_part.as_slice(), start),
        text.len(),
    );
    let close: usize = or_end(
        place_of(text.as_slice(), close_part.as_slice(), start, next),
        next,
    );
    let slash: usize = match place_of(text.as_slice(), slash_part.as_slice(), start, close) {
        Some(at) => at,
        None => {
            proof {
                assert forall|name: Seq<char>| !#[trigger] names_protocol(out@, name) by {
                    if names_protocol(out@, name) {
                        let (m, n, c, s, e) = choose|m: int, n: int, c: int, s: int, e: int|
                            #[trigger] is_protocol_at(out@, name, m, n, c, s, e);
                        lemma_places(out@, mark as int, m, start as int, next as int, n, close as int, c);
                        assert(stands_at(out@.take(c), "/"@, s));
                    }
                }
            }
            return ("Unknown".to_owned(), risk);
        },
    };
    let end: usize = or_end(
        place_of(text.as_slice(), slash_part.as_slice(), slash + 1, close),
        close,
    );
    let name: String = trim(slice_subrange(text.as_slice(), slash + 1, end));
    assert(is_protocol_at(
        out@,
        name@,
        mark as int,
        next as int,
        close as int,
        slash as int,
        end as int,
    ));
    (name, risk)
}

/// The places of the mark, of the next mark and of the closing bracket are what they are.
proof fn lemma_places(
    text: Seq<char>,
    mark: int,
    m: int,
    start: int,
    next: int,
    n: int,
    close: int,
    c: int,
)
    requires
        start == mark + "[proto: "@.len(),
        first_from(text, "[proto: "@, 0, mark),
        first_from(text, "[proto: "@, 0, m),
        ends_at(text, "[proto: "@, start, next),
        ends_at(text, "[proto: "@, m + "[proto: "@.len(), n),
        ends_at(text.take(next), "]"@, start, close),
        ends_at(text.take(n), "]"@, m + "[proto: "@.len(), c),
    ensures
        m == mark,
        n == next,
        c == close,
{
    if m < mark {
        assert(!stands_at(text, "[proto: "@, m));
    }
    if mark < m {
        assert(!stands_at(text, "[proto: "@, mark));
    }
    if first_from(text, "[proto: "@, start, next) {
        assert(stands_at(text, "[proto: "@, next));
        if n < next {
            assert(!stands_at(text, "[proto: "@, n));
        }
        if next < n {
            assert(!stands_at(text, "[proto: "@, next));
        }
    } else {
        if first_from(text, "[proto: "@, start, n) {
            assert(!stands_at(text, "[proto: "@, n));
        }
    }
    let head = text.take(next);
    if first_from(head, "]"@, start, close) {
        assert(stands_at(head, "]"@, close));
        if c < close {
            assert(!stands_at(head, "]"@, c));
        }
        if close < c {
            assert(!stands_at(head, "]"@, close));
        }
    } else {
        if first_from(head, "]"@, start, c) {
            assert(!stands_at(head, "]"@, c));
        }
    }
}

/// The classifier's output names at most one protocol, so what is read from it is fixed.
pub proof fn protocol_is_unique(text: Seq<char>, a: Seq<char>, b: Seq<char>)
    requires
        names_protocol(text, a),
        names_protocol(text, b),
    ensures
        a == b,
{
    let (m, n, c, s, e) = choose|m: int, n: int, c: int, s: int, e: int| #[trigger]
        is_protocol_at(text, a, m, n, c, s, e);
    let (m2, n2, c2, s2, e2) = choose|m: int, n: int, c: int, s: int, e: int| #[trigger]
        is_protocol_at(text, b, m, n, c, s, e);
    lemma_places(text, m, m2, m + "[proto: "@.len(), n, n2, c, c2);
    let head = text.take(c);
    let start = m + "[proto: "@.len();
    if s < s2 {
        assert(!stands_at(head, "/"@, s));
    }
    if s2 < s {
        assert(!stands_at(head, "/"@, s2));
    }
    if first_from(head, "/"@, s + 1, e) {
        assert(stands_at(head, "/"@, e));
        if e2 < e {
            assert(!stands_at(head, "/"@, e2));
        }
        if e < e2 {
            assert(!stands_at(head, "/"@, e));
        }
    } else {
        if first_from(head, "/"@, s + 1, e2) {
            assert(!stands_at(head, "/"@, e2));
        }
    }
}

/// Length of a capture's own header.
pub const PCAP_HEADER: usize = 24;

/// Length of the header of a captured packet.
pub const PCAP_RECORD: usize = 16;

/// Length of the Ethernet, IP and UDP headers of a captured packet.
pub const PCAP_FRAME_HEADERS: usize = 42;

/// How long the frame of a record is said to be.
pub open spec fn frame_len(bytes: Seq<u8>, at: int) -> int {
    bytes[at + 8] + 256 * bytes[at + 9] + 65536 * bytes[at + 10] + 16777216 * bytes[at + 11]
}

/// The payloads of the packets from a record on: reading stops at a record that is cut off,
/// and packets that are no longer than their headers are left out.
pub open spec fn payloads_from(bytes: Seq<u8>, at: int) -> Seq<Seq<u8>>
    decreases bytes.len() - at,
{
    if at < 0 || at + PCAP_RECORD > bytes.len() {
        seq![]
    } else {
        let from = at + PCAP_RECORD;
        let len = frame_len(bytes, at);
        if from + len > bytes.len() {
            seq![]
        } else if len > PCAP_FRAME_HEADERS {
            seq![bytes.subrange(from + PCAP_FRAME_HEADERS, from + len)] + payloads_from(
                bytes,
                from + len,
            )
        } else {
            payloads_from(bytes, from + len)
        }
    }
}

/// The payloads in a capture.
pub open spec fn payloads_of(bytes: Seq<u8>) -> Seq<Seq<u8>> {
    payloads_from(bytes, PCAP_HEADER as int)
}

/// The views of payloads.
pub open spec fn views(payloads: Seq<Vec<u8>>) -> Seq<Seq<u8>> {
    payloads.map_values(|p: Vec<u8>| p@)
}

/// The payloads of the UDP packets in a capture of Ethernet frames.
pub fn pcap_payloads(bytes: &[u8]) -> (payloads: Vec<Vec<u8>>)
    ensures
        views(payloads@) == payloads_of(bytes@),
{
    let mut payloads: Vec<Vec<u8>> = Vec::new();
    assert(views(payloads@) =~= seq![]);
    if bytes.len() < PCAP_HEADER {
        return payloads;
    }
    let mut at: usize = PCAP_HEADER;
    while bytes.len() - at >= PCAP_RECORD
        invariant
            at <= bytes.len(),
            payloads_of(bytes@) =~= views(payloads@) + payloads_from(bytes@, at as int),
        decreases bytes.len() - at,
    {
        let len: u32 = bytes[at + 8] as u32 + 256 * (bytes[at + 9] as u32) + 65536 * (bytes[at
            + 10] as u32) + 16777216 * (bytes[at + 11] as u32);
        let from: usize = at + PCAP_RECORD;
        if len as usize > bytes.len() - from {
            assert(payloads_from(bytes@, at as int) =~= seq![]);
            return payloads;
        }
        let to: usize = from + len as usize;
        let ghost before = views(payloads@);
        if len as usize > PCAP_FRAME_HEADERS {
            let frame: &[u8] = slice_subrange(bytes, from + PCAP_FRAME_HEADERS, to);
            let mut payload: Vec<u8> = Vec::new();
            payload.extend_from_slice(frame);
            assert(payload@ =~= bytes@.subrange(from + PCAP_FRAME_HEADERS, to as int));
            payloads.push(payload);
            assert(views(payloads@) =~= before.push(
                bytes@.subrange(from + PCAP_FRAME_HEADERS, to as int),
            ));
        }
        at = to;
    }
    payloads
}

/// A protocol whose structure a mask imitates.
#[derive(Clone, Copy, PartialEq, Eq, Structural)]
pub enum TargetProto {
    Stun,
    Quic,
}

/// A payload starts like a STUN binding request.
pub open spec fn has_stun_type(p: Seq<u8>) -> bool {
    p.len() >= 2 && p[0] == 0 && p[1] == 1
}

/// A payload has STUN's magic cookie.
pub open spec fn has_stun_magic(p: Seq<u8>) -> bool {
    p.len() >= 8 && p[4] == 0x21 && p[5] == 0x12 && p[6] == 0xA4 && p[7] == 0x42
}

/// A payload is as long as its STUN header says.
pub open spec fn has_stun_length(p: Seq<u8>) -> bool {
    p.len() >= 4 && p[2] * 256 + p[3] + 20 == p.len()
}

/// A payload starts with a long QUIC header.
pub open spec fn has_quic_long_header(p: Seq<u8>) -> bool {
    p.len() >= 1 && p[0] >= 0xC0
}

/// A payload is of QUIC's first version.
pub open spec fn has_quic_version(p: Seq<u8>) -> bool {
    p.len() >= 5 && p[1] == 0 && p[2] == 0 && p[3] == 0 && p[4] == 1
}

/// How many payloads bear the marks of the protocol they are to look like. For STUN: message
/// type, magic cookie, length; for QUIC: long header, version.
#[derive(Clone, Copy, PartialEq, Eq, Structural)]
pub struct StructureCounts {
    pub total: usize,
    pub first: usize,
    pub second: usize,
    pub third: usize,
}

/// How many payloads have a property.
pub open spec fn count_of(payloads: Seq<Seq<u8>>, property: spec_fn(Seq<u8>) -> bool) -> nat {
    payloads.filter(property).len()
}

fn marks(p: &[u8], target: TargetProto) -> (m: (bool, bool, bool))
    ensures
        target == TargetProto::Stun ==> m == (
            has_stun_type(p@),
            has_stun_magic(p@),
            has_stun_length(p@),
        ),
        target == TargetProto::Quic ==> m == (has_quic_long_header(p@), has_quic_version(p@), false),
{
    match target {
        TargetProto::Stun => (
            p.len() >= 2 && p[0] == 0 && p[1] == 1,
            p.len() >= 8 && p[4] == 0x21 && p[5] == 0x12 && p[6] == 0xA4 && p[7] == 0x42,
            p.len() >= 4 && p[2] as usize * 256 + p[3] as usize + 20 == p.len(),
        ),
        TargetProto::Quic => (
            p.len() >= 1 && p[0] >= 0xC0,
            p.len() >= 5 && p[1] == 0 && p[2] == 0 && p[3] == 0 && p[4] == 1,
            false,
        ),
    }
}

/// The mark of a payload that is counted first, second or third.
pub open spec fn mark_of(target: TargetProto, which: u8) -> spec_fn(Seq<u8>) -> bool {
    match (target, which) {
        (TargetProto::Stun, 0) => |p: Seq<u8>| has_stun_type(p),
        (TargetProto::Stun, 1) => |p: Seq<u8>| has_stun_magic(p),
        (TargetProto::Stun, 2) => |p: Seq<u8>| has_stun_length(p),
        (TargetProto::Quic, 0) => |p: Seq<u8>| has_quic_long_header(p),
        (TargetProto::Quic, 1) => |p: Seq<u8>| has_quic_version(p),
        _ => |p: Seq<u8>| false,
    }
}

/// Counts the payloads that bear the marks of the protocol they are to look like.
pub fn structure_counts(payloads: &Vec<Vec<u8>>, target: TargetProto) -> (counts: StructureCounts)
    ensures
        counts.total == payloads@.len(),
        counts.first == count_of(views(payloads@), mark_of(target, 0)),
        counts.second == count_of(views(payloads@), mark_of(target, 1)),
        counts.third == count_of(views(payloads@), mark_of(target, 2)),
{
    let ghost all = views(payloads@);
    let mut counts: StructureCounts = StructureCounts {
        total: payloads.len(),
        first: 0,
        second: 0,
        third: 0,
    };
    let mut i: usize = 0;
    proof {
        reveal(Seq::filter);
        assert(all.take(0) =~= seq![]);
    }
    while i < payloads.len()
        invariant
            i <= payloads.len(),
            all == views(payloads@),
            counts.total == payloads@.len(),
            counts.first <= i,
            counts.second <= i,
            counts.third <= i,
            counts.first == count_of(all.take(i as int), mark_of(target, 0)),
            counts.second == count_of(all.take(i as int), mark_of(target, 1)),
            counts.third == count_of(all.take(i as int), mark_of(target, 2)),
        decreases payloads.len() - i,
    {
        let (a, b, c): (bool, bool, bool) = marks(payloads[i].as_slice(), target);
        proof {
            reveal(Seq::filter);
            assert(all.take(i + 1).drop_last() =~= all.take(i as int));
            assert(all.take(i + 1).last() == payloads@[i as int]@);
        }
        if a {
            counts.first = counts.first + 1;
        }
        if b {
            counts.second = counts.second + 1;
        }
        if c {
            counts.third = counts.third + 1;
        }
        i += 1;
    }
    assert(all.take(i as int) =~= all);
    counts
}

/// How the repair of a mask ended.
#[derive(Clone, Copy, PartialEq, Eq, Structural)]
pub enum RepairEnd {
    /// The mask passes, and was written.
    Converged,
    /// The mask does not pass, and nothing was written.
    NotConverged,
    /// The tools or the arguments are at fault.
    Fault,
}

/// The code that the program exits with.
pub fn exit_code(end: RepairEnd) -> (code: u8)
    ensures
        code == (match end {
            RepairEnd::Converged => 0u8,
            RepairEnd::NotConverged => 1u8,
            RepairEnd::Fault => 2u8,
        }),
{
    match end {
        RepairEnd::Converged => 0,
        RepairEnd::NotConverged => 1,
        RepairEnd::Fault => 2,
    }
}

/// A recorded frame whose bytes go beyond its link, network and transport headers, 42 in all,
/// has a payload, which is the rest; a shorter one has none. Reading goes on behind it, and ends
/// where a frame is cut off.
pub proof fn frames_are_read_one_by_one(bytes: Seq<u8>, at: int)
    requires
        0 <= at,
    ensures
        at + 16 > bytes.len() ==> payloads_from(bytes, at).len() == 0,
        at + 16 <= bytes.len() ==> {
            let len = bytes[at + 8] + bytes[at + 9] * 256 + bytes[at + 10] * 65536 + bytes[at + 11]
                * 16777216;
            let next = at + 16 + len;
            &&& next > bytes.len() ==> payloads_from(bytes, at).len() == 0
            &&& next <= bytes.len() && len <= 42 ==> payloads_from(bytes, at) == payloads_from(
                bytes,
                next,
            )
            &&& next <= bytes.len() && len > 42 ==> payloads_from(bytes, at) == seq![
                bytes.subrange(at + 58, next),
            ] + payloads_from(bytes, next)
        },
        payloads_of(bytes) == payloads_from(bytes, 24),
{
}

/// The marks of a call-setup message are its type, its magic number and its length; those of a
/// web-transport packet are its long header and its version.
pub proof fn marks_are_where_the_protocol_has_them(p: Seq<u8>)
    ensures
        mark_of(TargetProto::Stun, 0)(p) <==> p.len() >= 2 && p[0] == 0 && p[1] == 1,
        mark_of(TargetProto::Stun, 1)(p) <==> p.len() >= 8 && p[4] == 0x21 && p[5] == 0x12 && p[6]
            == 0xa4 && p[7] == 0x42,
        mark_of(TargetProto::Stun, 2)(p) <==> p.len() >= 4 && p[2] * 256 + p[3] == p.len() - 20,
        mark_of(TargetProto::Quic, 0)(p) <==> p.len() >= 1 && p[0] / 64 == 3,
        mark_of(TargetProto::Quic, 1)(p) <==> p.len() >= 5 && p[1] == 0 && p[2] == 0 && p[3] == 0
            && p[4] == 1,
        !mark_of(TargetProto::Quic, 2)(p),
{
}

/// One more payload is counted once for a mark, where it has it.
pub proof fn payload_is_counted_once_a_mark(
    payloads: Seq<Seq<u8>>,
    p: Seq<u8>,
    property: spec_fn(Seq<u8>) -> bool,
)
    ensures
        property(p) ==> count_of(payloads.push(p), property) == count_of(payloads, property) + 1,
        !property(p) ==> count_of(payloads.push(p), property) == count_of(payloads, property),
        count_of(seq![], property) == 0,
{
    reveal(Seq::filter);
    assert(payloads.push(p).drop_last() =~= payloads);
}

/// A text names a tunnel where one of the tunnel words stands in it, in any case of letters.
pub proof fn tunnel_words_count_in_any_case(front: Seq<char>, back: Seq<char>, i: int)
    requires
        0 <= i < 5,
    ensures
        names_tunnel(front + TUNNEL_WORDS@[i]@ + back),
{
    let word = TUNNEL_WORDS@[i]@;
    let text = front + word + back;
    let at = front.len() as int;
    assert(text.subrange(at, at + word.len()) =~= word);
    assert(same_but_for_case(text.subrange(at, at + word.len()), word));
    assert(holds_word(text, word));
}

/// A report that says `[proto: n/Name]` once names that protocol, without white space around it.
pub proof fn protocol_is_named_behind_the_slash(
    front: Seq<char>,
    number: Seq<char>,
    name: Seq<char>,
    back: Seq<char>,
)
    requires
        forall|i: int|
            0 <= i < number.len() ==> #[trigger] number[i] != '/' && number[i] != ']',
        forall|i: int| 0 <= i < name.len() ==> #[trigger] name[i] != '/' && name[i] != ']',
        forall|k: int|
            k != front.len() ==> !#[trigger] stands_at(
                front + "[proto: "@ + number + "/"@ + name + "]"@ + back,
                "[proto: "@,
                k,
            ),
    ensures
        names_protocol(
            front + "[proto: "@ + number + "/"@ + name + "]"@ + back,
            trimmed(name),
        ),
{
    reveal_strlit("[proto: ");
    reveal_strlit("/");
    reveal_strlit("]");
    let part = "[proto: "@;
    let text = front + part + number + "/"@ + name + "]"@ + back;
    let mark = front.len() as int;
    let start = mark + 8;
    let slash = start + number.len();
    let close = slash + 1 + name.len();
    let next = text.len() as int;
    assert(text.subrange(mark, mark + 8) =~= part);
    assert(first_from(text, part, 0, mark));
    assert(none_from(text, part, start));
    let whole = text.take(next);
    assert(whole =~= text);
    assert(text[close] == ']');
    assert(whole.subrange(close, close + 1) =~= "]"@);
    assert forall|k: int| start <= k < close implies !#[trigger] stands_at(whole, "]"@, k) by {
        if stands_at(whole, "]"@, k) {
            assert(whole.subrange(k, k + 1)[0] == ']');
            assert(text[k] == ']');
            if k < slash {
                assert(text[k] == number[k - start]);
            } else if k > slash {
                assert(text[k] == name[k - slash - 1]);
            }
        }
    }
    assert(first_from(whole, "]"@, start, close));
    let inside = text.take(close);
    assert(inside[slash] == '/');
    assert(inside.subrange(slash, slash + 1) =~= "/"@);
    assert forall|k: int| start <= k < slash implies !#[trigger] stands_at(inside, "/"@, k) by {
        if stands_at(inside, "/"@, k) {
            assert(inside.subrange(k, k + 1)[0] == '/');
            assert(inside[k] == number[k - start]);
        }
    }
    assert(first_from(inside, "/"@, start, slash));
    assert forall|k: int| slash + 1 <= k implies !#[trigger] stands_at(inside, "/"@, k) by {
        if stands_at(inside, "/"@, k) {
            assert(inside.subrange(k, k + 1)[0] == '/');
            assert(inside[k] == name[k - slash - 1]);
        }
    }
    assert(none_from(inside, "/"@, slash + 1));
    assert(inside.len() == close);
    assert(text.subrange(slash + 1, close) =~= name);
    assert(is_protocol_at(text, trimmed(name), mark, next, close, slash, close));
}

} // verus!
