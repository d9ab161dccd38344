//! Packets moved in batches.

use crate::peer::PeerAddr;
use vstd::prelude::*;
use vstd::slice::slice_subrange;

verus! {

/// Most packets moved by one call.
pub const MAX_BATCH: usize = 64;

/// Room for one received packet.
pub struct RecvSlot {
    pub buf: Vec<u8>,
    pub len: usize,
    pub addr: Option<PeerAddr>,
}

impl RecvSlot {
    /// An empty slot for packets of up to `capacity` bytes.
    pub fn new(capacity: usize) -> (slot: RecvSlot)
        ensures
            slot.buf@ == Seq::new(capacity as nat, |i: int| 0u8),
            slot.len == 0,
            slot.addr is None,
    {
        let slot = RecvSlot { buf: vec![0u8; capacity], len: 0, addr: None };
        assert(slot.buf@ =~= Seq::new(capacity as nat, |i: int| 0u8));
        slot
    }

    /// The bytes received.
    pub fn packet(&self) -> (packet: &[u8])
        requires
            self.len <= self.buf@.len(),
        ensures
            packet@ == self.buf@.take(self.len as int),
    {
        let packet: &[u8] = slice_subrange(self.buf.as_slice(), 0, self.len);
        assert(packet@ =~= self.buf@.take(self.len as int));
        packet
    }
}

/// How many of the offered slots one call fills at most.
pub fn receive_limit(slots: usize) -> (n: usize)
    ensures
        n == (if slots < MAX_BATCH {
            slots
        } else {
            MAX_BATCH
        }),
{
    if slots < MAX_BATCH {
        slots
    } else {
        MAX_BATCH
    }
}

/// The end of the batch that starts at `offset`.
pub open spec fn batch_end(offset: nat, total: nat) -> nat {
    if offset + MAX_BATCH < total {
        offset + (MAX_BATCH as nat)
    } else {
        total
    }
}

/// The messages to hand over next: `None` once all have been.
pub fn next_batch(offset: usize, total: usize) -> (range: Option<(usize, usize)>)
    ensures
        match range {
            Some((from, to)) => from == offset && offset < total && to == batch_end(
                offset as nat,
                total as nat,
            ),
            None => offset >= total,
        },
{
    if offset >= total {
        return None;
    }
    let end: usize = if total - offset > MAX_BATCH {
        offset + MAX_BATCH
    } else {
        total
    };
    Some((offset, end))
}

/// A batch is never empty, never too long, and never reaches past the last message.
pub proof fn batches_make_progress(offset: nat, total: nat)
    requires
        offset < total,
    ensures
        offset < batch_end(offset, total) <= total,
        batch_end(offset, total) - offset <= MAX_BATCH,
{
}

/// A batch ends after 64 packets, or with the last one; batches follow each other without a gap.
pub proof fn batch_holds_sixty_four(offset: nat, total: nat)
    requires
        offset < total,
    ensures
        total - offset > 64 ==> batch_end(offset, total) == offset + 64,
        total - offset <= 64 ==> batch_end(offset, total) == total,
{
}

} // verus!
