//! Addresses of clients on the network.

use crate::bytes::{be_u32, be_value, bytes_spell_a_number, le_value, le_word};
use vstd::prelude::*;

verus! {

/// An address and port.
#[derive(Clone, Copy, Debug, PartialEq, Eq)]
pub enum PeerAddr {
    V4 { ip: [u8; 4], port: u16 },
    V6 { ip6: [u8; 16], port: u16 },
}

impl PeerAddr {
    /// A number for the address and port, the same for all packets from there.
    pub open spec fn shard_key_spec(self) -> u64 {
        match self {
            PeerAddr::V4 { ip, port } => (be_value(ip@) * 65536 + port) as u64,
            PeerAddr::V6 { ip6, port } => (le_value(ip6@.take(8)) as u64) ^ (port as u64),
        }
    }

    /// A number for the address and port: for IPv4 the address in front of the port, for
    /// IPv6 the first half of the address combined with the port.
    pub fn shard_key(&self) -> (key: u64)
        ensures
            key == self.shard_key_spec(),
    {
        match self {
            PeerAddr::V4 { ip, port } => be_u32(ip) as u64 * 65536 + *port as u64,
            PeerAddr::V6 { ip6, port } => le_word(ip6.as_slice()) ^ (*port as u64),
        }
    }

    /// A number for the address alone; IPv4 addresses lie in the range that IPv6 reserves
    /// for them.
    pub open spec fn ip_key_spec(self) -> nat {
        match self {
            PeerAddr::V4 { ip, .. } => 0xffff_0000_0000 + be_value(ip@),
            PeerAddr::V6 { ip6, .. } => be_value(ip6@),
        }
    }

    /// A number for the address alone.
    pub fn ip_key(&self) -> (key: u128)
        ensures
            key == self.ip_key_spec(),
    {
        match self {
            PeerAddr::V4 { ip, .. } => 0xffff_0000_0000u128 + be_u32(ip) as u128,
            PeerAddr::V6 { ip6, .. } => {
                let mut key: u128 = 0;
                let mut i: usize = 0;
                proof {
                    assert(ip6@.take(0) =~= seq![]);
                    lemma_be_bound(ip6@);
                    vstd::arithmetic::power2::lemma2_to64();
                    vstd::arithmetic::power2::lemma2_to64_rest();
                    vstd::arithmetic::power2::lemma_pow2_adds(64, 64);
                }
                while i < 16
                    invariant
                        i <= 16,
                        key == be_value(ip6@.take(i as int)),
                        vstd::arithmetic::power2::pow2(128) == 0x1_0000_0000_0000_0000 * 0x1_0000_0000_0000_0000,
                    decreases 16 - i,
                {
                    proof {
                        let next = ip6@.take(i + 1);
                        assert(next.drop_last() =~= ip6@.take(i as int));
                        lemma_be_bound(next);
                        if i + 1 < 16 {
                            vstd::arithmetic::power2::lemma_pow2_strictly_increases(
                                (8 * (i + 1)) as nat,
                                128,
                            );
                        }
                    }
                    key = key * 256 + ip6[i] as u128;
                    i += 1;
                }
                assert(ip6@.take(16) =~= ip6@);
                key
            },
        }
    }
}

proof fn lemma_be_bound(bytes: Seq<u8>)
    ensures
        be_value(bytes) < vstd::arithmetic::power2::pow2(8 * bytes.len()),
    decreases bytes.len(),
{
    vstd::arithmetic::power2::lemma2_to64();
    if bytes.len() > 0 {
        let rest = bytes.drop_last();
        lemma_be_bound(rest);
        vstd::arithmetic::power2::lemma_pow2_adds(8 * rest.len(), 8);
    }
}

/// Fewest workers that packets are spread over.
pub const MIN_WORKERS: usize = 2;

/// Most workers that packets are spread over.
pub const MAX_WORKERS: usize = 16;

/// Workers where the number of processors is not known.
pub const DEFAULT_WORKERS: usize = 4;

/// How many workers to run on a machine with so many processors.
pub fn receive_worker_count(processors: Option<usize>) -> (n: usize)
    ensures
        n == (match processors {
            Some(p) => if p < MIN_WORKERS {
                MIN_WORKERS
            } else if p > MAX_WORKERS {
                MAX_WORKERS
            } else {
                p
            },
            None => DEFAULT_WORKERS,
        }),
        MIN_WORKERS <= n <= MAX_WORKERS,
{
    let p: usize = match processors {
        Some(p) => p,
        None => DEFAULT_WORKERS,
    };
    if p < MIN_WORKERS {
        MIN_WORKERS
    } else if p > MAX_WORKERS {
        MAX_WORKERS
    } else {
        p
    }
}

/// The worker that a packet goes to: that of its session's address where it has one, so that
/// a client that moves keeps its worker, else that of its own.
pub open spec fn worker_of(from: PeerAddr, session_addr: Option<PeerAddr>, workers: usize) -> int {
    let addr = match session_addr {
        Some(a) => a,
        None => from,
    };
    if workers <= 1 {
        0
    } else {
        ((addr.shard_key_spec() as usize) % workers) as int
    }
}

/// The worker that a packet goes to.
pub fn worker_index_for_packet(
    from: PeerAddr,
    session_addr: Option<PeerAddr>,
    workers: usize,
) -> (index: usize)
    ensures
        index == worker_of(from, session_addr, workers),
        workers > 0 ==> index < workers,
{
    if workers <= 1 {
        return 0;
    }
    let addr: PeerAddr = match session_addr {
        Some(a) => a,
        None => from,
    };
    (addr.shard_key() as usize) % workers
}

/// All packets of one session go to one worker, wherever they come from, so they are never
/// handled out of order by two.
pub proof fn session_keeps_its_worker(a: PeerAddr, b: PeerAddr, session_addr: PeerAddr, workers: usize)
    ensures
        worker_of(a, Some(session_addr), workers) == worker_of(b, Some(session_addr), workers),
{
}

/// An address's number tells it from every other address of its kind, whatever the port; an
/// older address has the number of its mapped form.
pub proof fn address_is_told_by_its_number(ip: [u8; 4], port: u16, other: u16)
    ensures
        (PeerAddr::V4 { ip, port }).ip_key_spec() == (PeerAddr::V4 {
            ip,
            port: other,
        }).ip_key_spec(),
        (PeerAddr::V4 { ip, port }).ip_key_spec() == 0xffff_0000_0000 + ip[0] * 16777216 + ip[1]
            * 65536 + ip[2] * 256 + ip[3],
        (PeerAddr::V4 { ip, port }).shard_key_spec() == (ip[0] * 16777216 + ip[1] * 65536 + ip[2]
            * 256 + ip[3]) * 65536 + port,
{
    bytes_spell_a_number(ip[0], ip[1], ip[2], ip[3]);
    assert(ip@ =~= seq![ip[0], ip[1], ip[2], ip[3]]);
}

/// A newer address's number is all of its bytes, and does not depend on the port.
pub proof fn newer_address_is_told_by_its_bytes(ip6: [u8; 16], port: u16, other: u16)
    ensures
        (PeerAddr::V6 { ip6, port }).ip_key_spec() == be_value(ip6@),
        (PeerAddr::V6 { ip6, port }).ip_key_spec() == (PeerAddr::V6 {
            ip6,
            port: other,
        }).ip_key_spec(),
        (PeerAddr::V6 { ip6, port }).shard_key_spec() ^ (port as u64) == le_value(
            ip6@.take(8),
        ) as u64,
{
    let x = le_value(ip6@.take(8)) as u64;
    let p = port as u64;
    assert((x ^ p) ^ p == x) by (bit_vector);
}

/// A packet goes to the worker of its session's address where it has a session, else to that of
/// the address it came from; with one worker, or none, it is the first.
pub proof fn packet_goes_to_its_sessions_worker(
    from: PeerAddr,
    session_addr: PeerAddr,
    workers: usize,
)
    ensures
        worker_of(from, Some(session_addr), workers) == worker_of(session_addr, None, workers),
        workers <= 1 ==> worker_of(from, None, workers) == 0,
        workers > 1 ==> worker_of(from, None, workers) == (from.shard_key_spec() as usize) % workers,
{
}

} // verus!
