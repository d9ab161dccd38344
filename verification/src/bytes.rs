//! Numbers as runs of bytes.

use vstd::arithmetic::power2::{
    lemma2_to64, lemma2_to64_rest, lemma_pow2_adds, lemma_pow2_strictly_increases, pow2,
};
use vstd::prelude::*;

verus! {

/// The number whose little-endian base-256 digits are `bytes`.
pub open spec fn le_value(bytes: Seq<u8>) -> nat
    decreases bytes.len(),
{
    if bytes.len() == 0 {
        0
    } else {
        bytes[0] as nat + 256 * le_value(bytes.drop_first())
    }
}

/// So many bytes stand for a number of so many bits.
pub proof fn le_value_fits(bytes: Seq<u8>)
    ensures
        le_value(bytes) < pow2(8 * bytes.len()),
    decreases bytes.len(),
{
    lemma2_to64();
    if bytes.len() > 0 {
        let rest = bytes.drop_first();
        le_value_fits(rest);
        let n = 8 * rest.len();
        lemma_pow2_adds(n, 8);
        assert(pow2(8 * bytes.len()) == pow2(n) * 256);
    }
}

/// The number that the first eight bytes stand for, least significant byte first.
pub fn le_word(bytes: &[u8]) -> (word: u64)
    requires
        bytes@.len() >= 8,
    ensures
        word == le_value(bytes@.take(8)),
{
    let ghost first = bytes@.take(8);
    let mut word: u64 = 0;
    let mut i: usize = 8;
    while i > 0
        invariant
            i <= 8,
            bytes@.len() >= 8,
            first == bytes@.take(8),
            word == le_value(first.skip(i as int)),
        decreases i,
    {
        i -= 1;
        proof {
            let tail = first.skip(i as int);
            assert(tail.drop_first() =~= first.skip(i + 1));
            le_value_fits(tail);
            lemma2_to64();
            lemma2_to64_rest();
            if i > 0 {
                lemma_pow2_strictly_increases((8 * (8 - i)) as nat, 64);
            }
        }
        word = word * 256 + bytes[i] as u64;
    }
    assert(first.skip(0) =~= first);
    word
}

/// The number that the bytes stand for, most significant byte first.
pub open spec fn be_value(bytes: Seq<u8>) -> nat
    decreases bytes.len(),
{
    if bytes.len() == 0 {
        0
    } else {
        256 * be_value(bytes.drop_last()) + bytes.last() as nat
    }
}

/// The number that four bytes stand for, most significant byte first.
pub fn be_u32(b: &[u8; 4]) -> (n: u32)
    ensures
        n == be_value(b@),
{
    proof {
        reveal_with_fuel(be_value, 5);
        assert(b@.drop_last().drop_last().drop_last().drop_last() =~= seq![]);
    }
    ((b[0] as u32 * 256 + b[1] as u32) * 256 + b[2] as u32) * 256 + b[3] as u32
}

/// The bytes of a number, least significant byte first.
pub open spec fn le_bytes(n: nat, len: nat) -> Seq<u8>
    decreases len,
{
    if len == 0 {
        seq![]
    } else {
        seq![(n % 256) as u8] + le_bytes(n / 256, (len - 1) as nat)
    }
}

/// The eight bytes of a number, least significant byte first.
pub fn le_u64_bytes(n: u64) -> (bytes: Vec<u8>)
    ensures
        bytes@ == le_bytes(n as nat, 8),
{
    let mut bytes: Vec<u8> = Vec::new();
    let mut rest: u64 = n;
    let mut i: usize = 0;
    while i < 8
        invariant
            i <= 8,
            le_bytes(n as nat, 8) == bytes@ + le_bytes(rest as nat, (8 - i) as nat),
        decreases 8 - i,
    {
        let ghost before = bytes@;
        let ghost r = rest as nat;
        bytes.push((rest % 256) as u8);
        rest = rest / 256;
        i += 1;
        assert(before + le_bytes(r, (9 - i) as nat) =~= bytes@ + le_bytes(
            rest as nat,
            (8 - i) as nat,
        ));
    }
    assert(bytes@ + le_bytes(rest as nat, 0) =~= bytes@);
    bytes
}

/// How often a byte occurs.
pub open spec fn occurrences(data: Seq<u8>, byte: u8) -> nat {
    data.to_multiset().count(byte)
}

/// How often each of the 256 bytes occurs.
pub fn byte_counts(data: &[u8]) -> (counts: Vec<usize>)
    ensures
        counts@.len() == 256,
        forall|b: u8| #[trigger] counts@[b as int] == occurrences(data@, b),
{
    let mut counts: Vec<usize> = vec![0usize; 256];
    let mut i: usize = 0;
    proof {
        assert(data@.take(0) =~= seq![]);
        data@.take(0).to_multiset_ensures();
    }
    while i < data.len()
        invariant
            i <= data.len(),
            counts@.len() == 256,
            forall|b: u8| #[trigger] counts@[b as int] == occurrences(data@.take(i as int), b),
            forall|b: u8| #[trigger] counts@[b as int] <= i,
        decreases data.len() - i,
    {
        let ghost before = counts@;
        let byte: usize = data[i] as usize;
        assert(before[data@[i as int] as int] <= i);
        counts[byte] = counts[byte] + 1;
        proof {
            data@.take(i as int).to_multiset_ensures();
            assert(data@.take(i + 1) =~= data@.take(i as int).push(data@[i as int]));
            assert forall|b: u8| #[trigger] counts@[b as int] == occurrences(data@.take(i + 1), b)
                && counts@[b as int] <= i + 1 by {
                assert(before[b as int] == occurrences(data@.take(i as int), b));
            }
        }
        i += 1;
    }
    assert(data@.take(i as int) =~= data@);
    counts
}

/// Bytes stand for a number low byte first or high byte first, as the name says; four of them
/// spell it out.
pub proof fn bytes_spell_a_number(a: u8, b: u8, c: u8, d: u8)
    ensures
        le_value(seq![a, b, c, d]) == a + b * 256 + c * 65536 + d * 16777216,
        be_value(seq![a, b, c, d]) == a * 16777216 + b * 65536 + c * 256 + d,
{
    let s = seq![a, b, c, d];
    assert(s.drop_first() =~= seq![b, c, d]);
    assert(seq![b, c, d].drop_first() =~= seq![c, d]);
    assert(seq![c, d].drop_first() =~= seq![d]);
    assert(seq![d].drop_first() =~= Seq::<u8>::empty());
    assert(le_value(Seq::<u8>::empty()) == 0);
    assert(le_value(seq![d]) == d);
    assert(le_value(seq![c, d]) == c + 256 * d);
    assert(le_value(seq![b, c, d]) == b + 256 * c + 65536 * d);
    assert(s.drop_last() =~= seq![a, b, c]);
    assert(seq![a, b, c].drop_last() =~= seq![a, b]);
    assert(seq![a, b].drop_last() =~= seq![a]);
    assert(seq![a].drop_last() =~= Seq::<u8>::empty());
    assert(be_value(Seq::<u8>::empty()) == 0);
    assert(be_value(seq![a]) == a);
    assert(be_value(seq![a, b]) == a * 256 + b);
    assert(be_value(seq![a, b, c]) == a * 65536 + b * 256 + c);
}

/// One more byte in front counts as it is, and lifts the others; one more behind does so in the
/// other order.
pub proof fn byte_more_lifts_the_others(bytes: Seq<u8>, b: u8)
    ensures
        le_value(seq![b] + bytes) == b + 256 * le_value(bytes),
        be_value(bytes.push(b)) == 256 * be_value(bytes) + b,
        le_value(seq![]) == 0,
        be_value(seq![]) == 0,
{
    assert((seq![b] + bytes).drop_first() =~= bytes);
    assert(bytes.push(b).drop_last() =~= bytes);
}

/// A number written out in bytes is read back as it was, where it fits in them.
pub proof fn written_number_is_read_back(n: nat, len: nat)
    requires
        n < pow2(8 * len),
    ensures
        le_bytes(n, len).len() == len,
        le_value(le_bytes(n, len)) == n,
    decreases len,
{
    if len == 0 {
        vstd::arithmetic::power2::lemma2_to64();
    } else {
        let m = (len - 1) as nat;
        vstd::arithmetic::power2::lemma2_to64();
        vstd::arithmetic::power2::lemma_pow2_adds(8, 8 * m);
        assert(8 + 8 * m == 8 * len);
        assert(n / 256 < pow2(8 * m)) by (nonlinear_arith)
            requires
                n < 256 * pow2(8 * m),
        ;
        written_number_is_read_back(n / 256, m);
        let rest = le_bytes(n / 256, m);
        byte_more_lifts_the_others(rest, (n % 256) as u8);
    }
}

/// One more byte is counted once, under its own value.
pub proof fn byte_more_is_counted_once(data: Seq<u8>, byte: u8, other: u8)
    ensures
        occurrences(data.push(byte), byte) == occurrences(data, byte) + 1,
        other != byte ==> occurrences(data.push(byte), other) == occurrences(data, other),
        occurrences(seq![], other) == 0,
{
    vstd::seq_lib::to_multiset_build(data, byte);
    assert(Seq::<u8>::empty().to_multiset().len() == 0) by {
        broadcast use vstd::seq_lib::group_to_multiset_ensures;

    }
}

} // verus!
