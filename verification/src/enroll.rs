//! The exchange by which a server joins another's pool.

use crate::bytes::{le_bytes, le_value};
use vstd::prelude::*;

verus! {

/// Longest answer of a peer that is read.
pub const MAX_ANSWER_LEN: usize = 1048576;

/// A message with its length in front of it, in four bytes, least significant first.
pub open spec fn framed(message: Seq<u8>) -> Seq<u8> {
    le_bytes(message.len(), 4) + message
}

/// A message with its length in front of it.
pub fn frame_message(message: &[u8]) -> (frame: Vec<u8>)
    requires
        message@.len() <= u32::MAX,
    ensures
        frame@ == framed(message@),
{
    let len: u32 = message.len() as u32;
    let mut frame: Vec<u8> = Vec::new();
    frame.push((len % 256) as u8);
    frame.push((len / 256 % 256) as u8);
    frame.push((len / 65536 % 256) as u8);
    frame.push((len / 16777216) as u8);
    proof {
        reveal_with_fuel(le_bytes, 5);
        let n = len as nat;
        assert(n / 256 / 256 == n / 65536);
        assert(n / 65536 / 256 == n / 16777216);
        assert(frame@ =~= le_bytes(n, 4));
    }
    frame.extend_from_slice(message);
    assert(frame@ =~= framed(message@));
    frame
}

/// How much of a peer's answer is read: what its length says, up to a limit.
pub fn answer_len(length: &[u8; 4]) -> (len: usize)
    ensures
        len == (if le_value(length@) < MAX_ANSWER_LEN {
            le_value(length@) as int
        } else {
            MAX_ANSWER_LEN as int
        }),
{
    proof {
        reveal_with_fuel(le_value, 5);
        let s = length@;
        assert(s.drop_first().drop_first().drop_first().drop_first() =~= seq![]);
    }
    let n: u32 = length[0] as u32 + 256 * (length[1] as u32 + 256 * (length[2] as u32 + 256 * (
    length[3] as u32)));
    if (n as usize) < MAX_ANSWER_LEN {
        n as usize
    } else {
        MAX_ANSWER_LEN
    }
}

/// The length of a message is read back from its frame.
pub proof fn frame_tells_length(message: Seq<u8>)
    requires
        message.len() <= u32::MAX,
    ensures
        le_value(framed(message).take(4)) == message.len(),
        framed(message).skip(4) == message,
{
    reveal_with_fuel(le_bytes, 5);
    reveal_with_fuel(le_value, 5);
    let n = message.len();
    let head = framed(message).take(4);
    assert(n / 256 / 256 == n / 65536);
    assert(n / 65536 / 256 == n / 16777216);
    assert(head =~= seq![
        (n % 256) as u8,
        (n / 256 % 256) as u8,
        (n / 65536 % 256) as u8,
        (n / 16777216 % 256) as u8,
    ]);
    assert(head.drop_first().drop_first().drop_first().drop_first() =~= seq![]);
    assert(framed(message).skip(4) =~= message);
}

/// Whether a peer took the server in.
pub fn peer_accepts(status: Option<&str>) -> (r: bool)
    ensures
        r == (status is Some && status->0@ == "ok"@),
{
    match status {
        Some(s) => crate::text::same_text(s, "ok"),
        None => false,
    }
}

/// Whether anything is asked for when the limits of a client are set.
pub fn limits_given(up: bool, down: bool, class_known: bool, class_given: bool) -> (r: bool)
    ensures
        r == (up || down || class_known || class_given),
{
    up || down || class_known || class_given
}

} // verus!
