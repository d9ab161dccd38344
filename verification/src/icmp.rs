//! Answers to pings of the server's own address.

use vstd::prelude::*;

verus! {

/// Longest run of bytes whose checksum fits the accumulator.
pub const MAX_CHECKSUM_LEN: usize = 131072;

/// The two bytes at an even position as one big-endian word; a last single byte is followed
/// by a zero.
pub open spec fn word_at(data: Seq<u8>, i: int) -> nat {
    (data[i] * 256 + (if i + 1 < data.len() {
        data[i + 1] as int
    } else {
        0
    })) as nat
}

/// The sum of the words from position `from` on.
pub open spec fn word_sum(data: Seq<u8>, from: int) -> nat
    decreases data.len() - from + 1,
{
    if from >= data.len() {
        0
    } else {
        word_at(data, from) + word_sum(data, from + 2)
    }
}

/// A sum with its carries added back in until none is left.
pub open spec fn folded(sum: nat) -> nat {
    if sum == 0 {
        0
    } else {
        ((sum - 1) % 65535 + 1) as nat
    }
}

/// The Internet checksum: the ones' complement of the folded sum.
pub open spec fn checksum_of(data: Seq<u8>) -> nat {
    (65535 - folded(word_sum(data, 0))) as nat
}

proof fn lemma_fold_step(sum: nat)
    ensures
        folded(sum) <= 65535,
        sum <= 65535 ==> folded(sum) == sum,
        sum > 65535 ==> folded(sum % 65536 + sum / 65536) == folded(sum),
        sum > 65535 ==> sum % 65536 + sum / 65536 < sum,
{
    if sum > 65535 {
        let q = (sum / 65536) as int;
        let r = (sum % 65536) as int;
        assert(sum == 65536 * q + r);
        assert(sum - 1 == 65535 * q + (q + r - 1));
        vstd::arithmetic::div_mod::lemma_mod_multiples_vanish(q, q + r - 1, 65535);
    }
}

proof fn lemma_word_sum_bound(data: Seq<u8>, from: int)
    requires
        0 <= from,
    ensures
        from < data.len() ==> word_sum(data, from) <= 65535 * ((data.len() - from + 1) / 2),
        from >= data.len() ==> word_sum(data, from) == 0,
    decreases data.len() - from + 1,
{
    if from < data.len() {
        lemma_word_sum_bound(data, from + 2);
    }
}

/// The Internet checksum of some bytes.
pub fn compute_checksum(data: &[u8]) -> (checksum: u16)
    requires
        data@.len() <= MAX_CHECKSUM_LEN,
    ensures
        checksum == checksum_of(data@),
{
    let mut sum: u32 = 0;
    let mut i: usize = 0;
    proof {
        lemma_word_sum_bound(data@, 0);
    }
    while i < data.len()
        invariant
            i <= data.len() + 1,
            i % 2 == 0,
            data.len() <= MAX_CHECKSUM_LEN,
            sum + word_sum(data@, i as int) == word_sum(data@, 0),
            word_sum(data@, 0) <= 65535 * 65536,
        decreases data.len() + 1 - i,
    {
        let low: u32 = if i + 1 < data.len() {
            data[i + 1] as u32
        } else {
            0
        };
        sum = sum + (data[i] as u32 * 256 + low);
        i += 2;
    }
    let ghost total = sum as nat;
    while sum > 65535
        invariant
            folded(sum as nat) == folded(total),
        decreases sum,
    {
        proof {
            lemma_fold_step(sum as nat);
        }
        sum = sum % 65536 + sum / 65536;
    }
    proof {
        lemma_fold_step(sum as nat);
    }
    (65535 - sum) as u16
}

/// The bytes of an answer to an echo request, with a checksum in its place.
pub open spec fn echo_reply_with(request: Seq<u8>, server_ip: Seq<u8>, checksum: nat) -> Seq<u8> {
    seq![
        0x45u8,
        0u8,
        (request.len() / 256 % 256) as u8,
        (request.len() % 256) as u8,
        request[4],
        request[5],
        request[6],
        request[7],
        64u8,
        1u8,
        0u8,
        0u8,
    ] + server_ip + request.subrange(12, 16) + seq![
        0u8,
        request[21],
        (checksum / 256) as u8,
        (checksum % 256) as u8,
    ] + request.skip(24)
}

/// The answer to an echo request: addresses turned round, type zero, the rest as it came,
/// and the checksum of the message.
pub open spec fn echo_reply_to(request: Seq<u8>, server_ip: Seq<u8>) -> Seq<u8> {
    echo_reply_with(
        request,
        server_ip,
        checksum_of(echo_reply_with(request, server_ip, 0).skip(20)),
    )
}

/// Whether bytes are long enough for, and marked as, an echo request.
pub open spec fn is_echo_request(request: Seq<u8>) -> bool {
    request.len() >= 28 && request[20] == 8
}

/// The address part of an answer.
fn reply_header(request: &[u8], server_ip: &[u8; 4]) -> (header: Vec<u8>)
    requires
        request@.len() >= 28,
    ensures
        header@ == echo_reply_with(request@, server_ip@, 0).take(20),
{
    let mut header: Vec<u8> = Vec::new();
    header.push(0x45);
    header.push(0);
    header.push((request.len() / 256 % 256) as u8);
    header.push((request.len() % 256) as u8);
    header.push(request[4]);
    header.push(request[5]);
    header.push(request[6]);
    header.push(request[7]);
    header.push(64);
    header.push(1);
    header.push(0);
    header.push(0);
    header.extend_from_slice(server_ip.as_slice());
    header.push(request[12]);
    header.push(request[13]);
    header.push(request[14]);
    header.push(request[15]);
    assert(header@ =~= echo_reply_with(request@, server_ip@, 0).take(20));
    header
}

/// The message part of an answer, with its checksum.
fn reply_message(request: &[u8], server_ip: &[u8; 4]) -> (message: Vec<u8>)
    requires
        28 <= request@.len() <= MAX_CHECKSUM_LEN,
    ensures
        message@ == echo_reply_to(request@, server_ip@).skip(20),
{
    let mut message: Vec<u8> = Vec::new();
    message.push(0);
    message.push(request[21]);
    message.push(0);
    message.push(0);
    let mut i: usize = 24;
    while i < request.len()
        invariant
            24 <= i <= request.len(),
            message@ == seq![0u8, request@[21], 0u8, 0u8] + request@.subrange(24, i as int),
        decreases request.len() - i,
    {
        message.push(request[i]);
        assert(message@ =~= seq![0u8, request@[21], 0u8, 0u8] + request@.subrange(24, i + 1));
        i += 1;
    }
    assert(message@ =~= echo_reply_with(request@, server_ip@, 0).skip(20));
    let checksum: u16 = compute_checksum(message.as_slice());
    message[2] = (checksum / 256) as u8;
    message[3] = (checksum % 256) as u8;
    assert(message@ =~= echo_reply_to(request@, server_ip@).skip(20));
    message
}

/// Answers an echo request. `None` for anything else.
pub fn build_icmp_echo_reply(request: &[u8], server_ip: &[u8; 4]) -> (reply: Option<Vec<u8>>)
    requires
        request@.len() <= MAX_CHECKSUM_LEN,
    ensures
        match reply {
            Some(r) => is_echo_request(request@) && r@ == echo_reply_to(request@, server_ip@),
            None => !is_echo_request(request@),
        },
{
    if request.len() < 28 || request[20] != 8 {
        return None;
    }
    let mut reply: Vec<u8> = reply_header(request, server_ip);
    let mut message: Vec<u8> = reply_message(request, server_ip);
    reply.append(&mut message);
    assert(reply@ =~= echo_reply_to(request@, server_ip@));
    Some(reply)
}

proof fn lemma_checksum_inserted(before: Seq<u8>, after: Seq<u8>, checksum: nat)
    requires
        before.len() == after.len(),
        before.len() >= 4,
        before[2] == 0,
        before[3] == 0,
        checksum <= 65535,
        after[2] == checksum / 256,
        after[3] == checksum % 256,
        forall|i: int| 0 <= i < before.len() && i != 2 && i != 3 ==> before[i] == after[i],
    ensures
        word_sum(after, 0) == word_sum(before, 0) + checksum,
{
    lemma_same_tail(before, after, 4);
    assert(word_sum(before, 0) == word_at(before, 0) + word_sum(before, 2));
    assert(word_sum(before, 2) == word_at(before, 2) + word_sum(before, 4));
    assert(word_sum(after, 0) == word_at(after, 0) + word_sum(after, 2));
    assert(word_sum(after, 2) == word_at(after, 2) + word_sum(after, 4));
}

proof fn lemma_same_tail(a: Seq<u8>, b: Seq<u8>, from: int)
    requires
        a.len() == b.len(),
        0 <= from,
        forall|i: int| from <= i < a.len() ==> a[i] == b[i],
    ensures
        word_sum(a, from) == word_sum(b, from),
    decreases a.len() - from + 1,
{
    if from < a.len() {
        lemma_same_tail(a, b, from + 2);
    }
}

/// The message of an answer verifies: the checksum over all of it is zero.
pub proof fn echo_reply_verifies(request: Seq<u8>, server_ip: Seq<u8>)
    requires
        is_echo_request(request),
        server_ip.len() == 4,
    ensures
        checksum_of(echo_reply_to(request, server_ip).skip(20)) == 0,
{
    let blank = echo_reply_with(request, server_ip, 0).skip(20);
    let sum = word_sum(blank, 0);
    let c = checksum_of(blank);
    let full = echo_reply_to(request, server_ip).skip(20);
    lemma_fold_step(sum);
    lemma_checksum_inserted(blank, full, c);
    let t = (sum + c) as int;
    if sum == 0 {
        assert(t == 65535);
    } else {
        let k = (sum - 1) / 65535;
        assert(sum - 1 == 65535 * k + (sum - 1) % 65535);
        assert(t == 65535 * (k + 1));
        assert(t - 1 == 65535 * k + 65534);
        vstd::arithmetic::div_mod::lemma_mod_multiples_vanish(k as int, 65534, 65535);
    }
}

/// An answer has the length of its request, goes back to its sender and comes from the
/// server.
pub proof fn echo_reply_goes_back(request: Seq<u8>, server_ip: Seq<u8>)
    requires
        is_echo_request(request),
        server_ip.len() == 4,
    ensures
        echo_reply_to(request, server_ip).len() == request.len(),
        echo_reply_to(request, server_ip).subrange(12, 16) == server_ip,
        echo_reply_to(request, server_ip).subrange(16, 20) == request.subrange(12, 16),
        echo_reply_to(request, server_ip).skip(24) == request.skip(24),
{
    let reply = echo_reply_to(request, server_ip);
    assert(reply.subrange(12, 16) =~= server_ip);
    assert(reply.subrange(16, 20) =~= request.subrange(12, 16));
    assert(reply.skip(24) =~= request.skip(24));
}

/// An answer to a ping is its own message turned round: a plain header of twenty bytes with the
/// request's length and identification, 64 hops, the control protocol, and no header checksum;
/// then type zero, the request's code, and all that followed the request's checksum.
pub proof fn echo_reply_is_the_request_turned_round(request: Seq<u8>, server_ip: Seq<u8>, i: int)
    requires
        28 <= request.len() <= 65535,
        request[20] == 8,
        server_ip.len() == 4,
    ensures
        ({
            let reply = echo_reply_to(request, server_ip);
            &&& reply.len() == request.len()
            &&& reply[0] == 0x45 && reply[1] == 0
            &&& reply[2] * 256 + reply[3] == request.len()
            &&& 4 <= i < 8 ==> reply[i] == request[i]
            &&& reply[8] == 64 && reply[9] == 1 && reply[10] == 0 && reply[11] == 0
            &&& 0 <= i < 4 ==> reply[12 + i] == server_ip[i] && reply[16 + i] == request[12 + i]
            &&& reply[20] == 0 && reply[21] == request[21]
            &&& 24 <= i < request.len() ==> reply[i] == request[i]
        }),
{
}

/// Only a request of type eight with a whole header is answered.
pub proof fn only_echo_requests_are_answered(request: Seq<u8>)
    ensures
        is_echo_request(request) <==> request.len() >= 28 && request[20] == 8,
{
}

/// Words are read high byte first, two bytes at a time, and a last byte alone counts as the high
/// one.
pub proof fn words_are_added_in_pairs(a: u8, b: u8, rest: Seq<u8>)
    ensures
        word_sum(seq![], 0) == 0,
        word_sum(seq![a], 0) == a * 256,
        word_sum(seq![a, b] + rest, 0) == a * 256 + b + word_sum(rest, 0),
{
    let s = seq![a, b] + rest;
    assert(word_sum(seq![a], 2) == 0);
    assert(s[0] == a && s[1] == b);
    lemma_word_sum_skips(seq![a, b], rest, 0);
}

proof fn lemma_word_sum_skips(front: Seq<u8>, rest: Seq<u8>, from: int)
    requires
        front.len() == 2,
        0 <= from,
    ensures
        word_sum(front + rest, 2 + from) == word_sum(rest, from),
    decreases rest.len() - from + 1,
{
    if from < rest.len() {
        assert((front + rest)[2 + from] == rest[from]);
        if from + 1 < rest.len() {
            assert((front + rest)[3 + from] == rest[from + 1]);
        }
        lemma_word_sum_skips(front, rest, from + 2);
    }
}

/// A checksum completes the sum of the words to a multiple of 65535, which is how a receiver
/// verifies it.
pub proof fn checksum_completes_the_sum(data: Seq<u8>)
    ensures
        0 <= checksum_of(data) <= 65535,
        (word_sum(data, 0) + checksum_of(data)) % 65535 == 0,
        word_sum(data, 0) == 0 ==> checksum_of(data) == 65535,
        word_sum(data, 0) > 0 ==> checksum_of(data) < 65535,
{
    let sum = word_sum(data, 0) as int;
    if sum > 0 {
        let q = (sum - 1) / 65535;
        let r = (sum - 1) % 65535;
        assert(sum - 1 == 65535 * q + r);
        assert(sum + (65535 - (r + 1)) == 65535 * (q + 1));
        assert((65535 * (q + 1)) % 65535 == 0) by (nonlinear_arith);
    }
}

} // verus!
