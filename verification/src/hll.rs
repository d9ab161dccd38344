//! A fixed-size sketch that counts distinct reporters without keeping any of their tokens.

use crate::bytes::{le_value, le_value_fits, le_word};
use crate::outside::{blake3_digest, blake3_hash};
use vstd::arithmetic::power2::{
    lemma2_to64, lemma2_to64_rest, lemma_pow2_pos, lemma_pow2_strictly_increases,
    lemma_pow2_unfold, pow2,
};
use vstd::bits::lemma_u64_shl_is_mul;
use vstd::prelude::*;

verus! {

/// Number of registers in a sketch.
pub const HLL_REGISTERS: usize = 1024;

/// Rank given to a token whose hash has no bit set above the register index.
pub const MAX_RANK: u8 = 55;

/// Numerator of the bias correction `0.7213 / (1 + 1.079 / 1024)`, times `2^75`.
pub const ALPHA_NUMERATOR: u128 = 279039421980170247588980719616;

/// Denominator of the bias correction.
pub const ALPHA_DENOMINATOR: u128 = 10250790;

/// One in the fixed-point scale of the small-range correction.
pub const DECAY_ONE: u128 = 1125899906842624;

/// `e^(-1/1024)` in that scale, rounded down.
pub const DECAY_STEP: u128 = 1124800931911039;

/// `1024 * e^(-1/2048)` in that scale, rounded down.
pub const DECAY_START: u128 = 1152358692070012245;

/// How often two divides `w`; zero for `w == 0`.
pub open spec fn twos_in(w: nat) -> nat
    decreases w,
{
    if w == 0 || w % 2 == 1 {
        0
    } else {
        1 + twos_in(w / 2)
    }
}

/// The 64-bit word that stands for a token: the first eight digest bytes.
pub open spec fn token_word(token: Seq<u8>) -> nat {
    le_value(blake3_digest(token).take(8))
}

/// The register a token falls into: the low ten bits of its word.
pub open spec fn slot_of(token: Seq<u8>) -> int {
    (token_word(token) % 1024) as int
}

/// The rank of a token: one more than the number of trailing zero bits above the index, of
/// which there are at most 54.
pub open spec fn rank_of(token: Seq<u8>) -> u8 {
    let w = token_word(token) / 1024;
    if w == 0 || twos_in(w) >= 54 {
        MAX_RANK
    } else {
        (1 + twos_in(w)) as u8
    }
}

/// The registers after a token has been seen: its register rises to its rank, or stays.
pub open spec fn observe(registers: Seq<u8>, token: Seq<u8>) -> Seq<u8> {
    if rank_of(token) > registers[slot_of(token)] {
        registers.update(slot_of(token), rank_of(token))
    } else {
        registers
    }
}

/// The larger of two registers.
pub open spec fn larger(a: u8, b: u8) -> u8 {
    if a < b {
        b
    } else {
        a
    }
}

/// Register-wise maximum.
pub open spec fn union_of(a: Seq<u8>, b: Seq<u8>) -> Seq<u8> {
    Seq::new(a.len(), |i: int| larger(a[i], b[i]))
}

/// The registers of a sketch that has seen nothing.
pub open spec fn blank() -> Seq<u8> {
    Seq::new(HLL_REGISTERS as nat, |i: int| 0u8)
}

/// The registers of a sketch that has seen `tokens`, one after the other.
pub open spec fn sketch(tokens: Seq<Seq<u8>>) -> Seq<u8>
    decreases tokens.len(),
{
    if tokens.len() == 0 {
        blank()
    } else {
        observe(sketch(tokens.drop_last()), tokens.last())
    }
}

/// `2^55` times the sum of `2^-r` over the registers `r`.
pub open spec fn harmonic(registers: Seq<u8>) -> nat
    decreases registers.len(),
{
    if registers.len() == 0 {
        0
    } else {
        harmonic(registers.drop_last()) + pow2((MAX_RANK - registers.last()) as nat)
    }
}

/// How many registers are still zero.
pub open spec fn zero_registers(registers: Seq<u8>) -> nat
    decreases registers.len(),
{
    if registers.len() == 0 {
        0
    } else {
        zero_registers(registers.drop_last()) + (if registers.last() == 0 {
            1nat
        } else {
            0nat
        })
    }
}

/// `1024 * e^(-(n + 1/2) / 1024)` in fixed point: what is left of 1024 after `n` steps.
pub open spec fn decay_at(n: nat) -> nat
    decreases n,
{
    if n == 0 {
        DECAY_START as nat
    } else {
        decay(decay_at((n - 1) as nat))
    }
}

/// One step of the decay.
pub open spec fn decay(d: nat) -> nat {
    d * (DECAY_STEP as nat) / (DECAY_ONE as nat)
}

/// Steps until `level` exceeds a decaying quantity that now stands at `d`.
pub open spec fn steps_below(level: nat, d: nat) -> nat
    decreases d,
{
    if level > d || d == 0 {
        0
    } else {
        proof {
            assert(decay(d) < d) by {
                decay_shrinks(d);
            }
        }
        1 + steps_below(level, decay(d))
    }
}

/// `1024 * ln(1024 / zeros)` rounded to the nearest integer: linear counting.
pub open spec fn linear_count(zeros: nat) -> nat {
    steps_below(zeros * (DECAY_ONE as nat), DECAY_START as nat)
}

/// Whether the raw estimate is at most `2.5 * 1024`.
pub open spec fn in_small_range(sum: nat) -> bool {
    ALPHA_NUMERATOR <= 2560 * (ALPHA_DENOMINATOR * sum)
}

/// The raw estimate `alpha * 1024^2 / sum`, rounded to the nearest integer.
pub open spec fn raw_count(sum: nat) -> nat {
    let den = (ALPHA_DENOMINATOR * sum) as nat;
    let rounded = ((2 * ALPHA_NUMERATOR + den) as nat) / ((2 * den) as nat);
    if rounded > u64::MAX {
        u64::MAX as nat
    } else {
        rounded
    }
}

/// The number of distinct tokens that the registers stand for.
pub open spec fn estimate_of(registers: Seq<u8>) -> nat {
    let sum = harmonic(registers);
    let zeros = zero_registers(registers);
    if in_small_range(sum) && zeros > 0 {
        linear_count(zeros)
    } else {
        raw_count(sum)
    }
}

/// Every step takes something away.
pub proof fn decay_shrinks(d: nat)
    requires
        d > 0,
    ensures
        decay(d) < d,
{
    assert(d * (DECAY_STEP as nat) < d * (DECAY_ONE as nat)) by (nonlinear_arith)
        requires
            d > 0,
            DECAY_STEP < DECAY_ONE,
    ;
    assert(d * (DECAY_STEP as nat) / (DECAY_ONE as nat) < d) by (nonlinear_arith)
        requires
            d * (DECAY_STEP as nat) < d * (DECAY_ONE as nat),
            DECAY_ONE > 0,
    ;
}

proof fn lemma_twos_bound(w: nat, k: nat)
    requires
        0 < w < pow2(k),
    ensures
        twos_in(w) < k,
    decreases k,
{
    if k == 0 {
        lemma2_to64();
    } else {
        lemma_pow2_unfold(k);
        if w % 2 == 0 {
            lemma_twos_bound(w / 2, (k - 1) as nat);
        }
    }
}

proof fn lemma_rank_bound(token: Seq<u8>)
    requires
        blake3_digest(token).len() == 32,
    ensures
        0 < rank_of(token) <= MAX_RANK,
        token_word(token) <= u64::MAX,
        token_word(token) / 1024 != 0 ==> twos_in(token_word(token) / 1024) < 54,
{
    let word = token_word(token);
    le_value_fits(blake3_digest(token).take(8));
    lemma2_to64();
    lemma2_to64_rest();
    let w = word / 1024;
    if w != 0 {
        lemma_twos_bound(w, 54);
    }
}

proof fn lemma_harmonic_bounds(registers: Seq<u8>)
    requires
        forall|i: int| 0 <= i < registers.len() ==> registers[i] <= MAX_RANK,
    ensures
        registers.len() <= harmonic(registers) <= registers.len() * 36028797018963968,
        zero_registers(registers) <= registers.len(),
    decreases registers.len(),
{
    if registers.len() > 0 {
        lemma_harmonic_bounds(registers.drop_last());
        let k = (MAX_RANK - registers.last()) as nat;
        lemma_pow2_pos(k);
        lemma2_to64();
        lemma2_to64_rest();
        if k < 55 {
            lemma_pow2_strictly_increases(k, 55);
        }
    }
}

/// A sketch over [`HLL_REGISTERS`] registers, each holding the highest rank it has seen.
#[derive(Debug)]
pub struct Hll {
    registers: [u8; 1024],
}

impl View for Hll {
    type V = Seq<u8>;

    closed spec fn view(&self) -> Seq<u8> {
        self.registers@
    }
}

impl Hll {
    #[verifier::type_invariant]
    closed spec fn ranks_in_range(self) -> bool {
        forall|i: int| 0 <= i < 1024 ==> self.registers@[i] <= MAX_RANK
    }

    /// A sketch that has seen nothing.
    pub fn new() -> (hll: Hll)
        ensures
            hll@ == blank(),
    {
        let hll = Hll { registers: [0u8; 1024] };
        assert(hll.registers@ =~= blank());
        hll
    }

    /// Counts a token in. Seeing a token again changes nothing.
    pub fn add(&mut self, token: &[u8])
        ensures
            final(self)@ == observe(old(self)@, token@),
    {
        proof {
            use_type_invariant(&*self);
        }
        let digest: [u8; 32] = blake3_hash(token);
        let word: u64 = le_word(digest.as_slice());
        proof {
            lemma_rank_bound(token@);
        }
        let idx: usize = (word % 1024) as usize;
        let above: u64 = word / 1024;
        let mut rank: u8 = MAX_RANK;
        if above != 0 {
            rank = 1;
            let mut w: u64 = above;
            while w % 2 == 0
                invariant
                    w > 0,
                    above > 0,
                    twos_in(above as nat) < 54,
                    rank >= 1,
                    rank - 1 + twos_in(w as nat) == twos_in(above as nat),
                decreases w,
            {
                w = w / 2;
                rank += 1;
            }
        }
        if rank > self.registers[idx] {
            self.registers[idx] = rank;
        }
        assert(self.registers@ =~= observe(old(self)@, token@));
    }

    /// Takes in everything `other` has seen.
    pub fn merge(&mut self, other: &Hll)
        ensures
            final(self)@ == union_of(old(self)@, other@),
    {
        proof {
            use_type_invariant(&*self);
            use_type_invariant(other);
        }
        let mut merged: [u8; 1024] = self.registers;
        let mut i: usize = 0;
        while i < 1024
            invariant
                i <= 1024,
                forall|j: int| 0 <= j < i ==> merged@[j] == larger(self.registers@[j], other.registers@[j]),
                forall|j: int| i <= j < 1024 ==> merged@[j] == self.registers@[j],
            decreases 1024 - i,
        {
            let b: u8 = other.registers[i];
            if b > merged[i] {
                merged[i] = b;
            }
            i += 1;
        }
        self.registers = merged;
        assert(self.registers@ =~= union_of(old(self)@, other@));
    }

    /// The number of distinct tokens seen, as far as the registers tell.
    ///
    /// The bias-corrected harmonic mean is evaluated exactly, as a fraction of integers, and
    /// rounded once; below `2.5 * 1024` linear counting takes over while a register is empty.
    pub fn estimate(&self) -> (count: u64)
        ensures
            count == estimate_of(self@),
    {
        proof {
            use_type_invariant(self);
        }
        let mut sum: u128 = 0;
        let mut zeros: u64 = 0;
        let mut i: usize = 0;
        while i < 1024
            invariant
                i <= 1024,
                self.ranks_in_range(),
                sum == harmonic(self.registers@.take(i as int)),
                zeros == zero_registers(self.registers@.take(i as int)),
                sum <= i * 36028797018963968,
                zeros <= i,
            decreases 1024 - i,
        {
            let r: u8 = self.registers[i];
            let ghost next = self.registers@.take(i + 1);
            proof {
                assert(next.drop_last() =~= self.registers@.take(i as int));
                lemma_harmonic_bounds(next);
                lemma2_to64();
                lemma2_to64_rest();
                let k = (MAX_RANK - r) as nat;
                if k < 55 {
                    lemma_pow2_strictly_increases(k, 55);
                }
                lemma_u64_shl_is_mul(1, (55 - r) as u64);
            }
            let weight: u64 = 1u64 << ((55 - r) as u64);
            sum = sum + weight as u128;
            if r == 0 {
                zeros += 1;
            }
            i += 1;
        }
        proof {
            assert(self.registers@.take(1024) =~= self.registers@);
            lemma_harmonic_bounds(self.registers@);
        }
        let den: u128 = ALPHA_DENOMINATOR * sum;
        if ALPHA_NUMERATOR <= 2560 * den && zeros > 0 {
            let level: u128 = zeros as u128 * DECAY_ONE;
            let mut d: u128 = DECAY_START;
            let mut n: u64 = 0;
            while level <= d
                invariant
                    level >= DECAY_ONE,
                    d <= DECAY_START,
                    n + d <= DECAY_START,
                    n + steps_below(level as nat, d as nat) == steps_below(
                        level as nat,
                        DECAY_START as nat,
                    ),
                decreases d,
            {
                proof {
                    decay_shrinks(d as nat);
                }
                d = d * DECAY_STEP / DECAY_ONE;
                n += 1;
            }
            n
        } else {
            let rounded: u128 = (2 * ALPHA_NUMERATOR + den) / (2 * den);
            if rounded > u64::MAX as u128 {
                u64::MAX
            } else {
                rounded as u64
            }
        }
    }

    /// The registers themselves.
    pub fn registers(&self) -> (registers: &[u8; 1024])
        ensures
            registers@ == self@,
    {
        &self.registers
    }
}

impl Default for Hll {
    fn default() -> (hll: Hll)
        ensures
            hll@ == blank(),
    {
        Hll::new()
    }
}

impl Clone for Hll {
    fn clone(&self) -> (hll: Hll)
        ensures
            hll@ == self@,
    {
        proof {
            use_type_invariant(self);
        }
        Hll { registers: self.registers }
    }
}

/// Merging does not depend on which sketch takes in the other.
pub proof fn merge_is_commutative(a: Seq<u8>, b: Seq<u8>)
    requires
        a.len() == b.len(),
    ensures
        union_of(a, b) == union_of(b, a),
{
    assert(union_of(a, b) =~= union_of(b, a));
}

/// Merging does not depend on the order in which several sketches are taken in.
pub proof fn merge_is_associative(a: Seq<u8>, b: Seq<u8>, c: Seq<u8>)
    requires
        a.len() == b.len(),
        b.len() == c.len(),
    ensures
        union_of(union_of(a, b), c) == union_of(a, union_of(b, c)),
{
    assert(union_of(union_of(a, b), c) =~= union_of(a, union_of(b, c)));
}

/// Merging a sketch into itself, or a blank sketch into it, changes nothing.
pub proof fn merge_is_idempotent(a: Seq<u8>)
    requires
        a.len() == HLL_REGISTERS,
    ensures
        union_of(a, a) == a,
        union_of(a, blank()) == a,
        union_of(blank(), a) == a,
{
    assert(union_of(a, a) =~= a);
    assert(union_of(a, blank()) =~= a);
    assert(union_of(blank(), a) =~= a);
}

/// Neither counting a token in nor merging ever lowers a register.
pub proof fn registers_never_fall(a: Seq<u8>, b: Seq<u8>, token: Seq<u8>, i: int)
    requires
        a.len() == b.len(),
        0 <= i < a.len(),
        0 <= slot_of(token) < a.len(),
    ensures
        observe(a, token)[i] >= a[i],
        union_of(a, b)[i] >= a[i],
        union_of(a, b)[i] >= b[i],
{
}

/// A token that has been counted in once is not counted again.
pub proof fn repeated_token_changes_nothing(a: Seq<u8>, token: Seq<u8>)
    requires
        a.len() == HLL_REGISTERS,
    ensures
        observe(observe(a, token), token) == observe(a, token),
{
}

/// Two tokens may be counted in either order.
pub proof fn token_order_is_irrelevant(a: Seq<u8>, s: Seq<u8>, t: Seq<u8>)
    requires
        a.len() == HLL_REGISTERS,
    ensures
        observe(observe(a, s), t) == observe(observe(a, t), s),
{
    assert(observe(observe(a, s), t) =~= observe(observe(a, t), s));
}

proof fn lemma_sketch_len(tokens: Seq<Seq<u8>>)
    ensures
        sketch(tokens).len() == HLL_REGISTERS,
    decreases tokens.len(),
{
    if tokens.len() > 0 {
        lemma_sketch_len(tokens.drop_last());
    }
}

/// Merging the sketches of two groups of tokens gives the sketch of both groups together.
pub proof fn merge_is_sketch_of_union(a: Seq<Seq<u8>>, b: Seq<Seq<u8>>)
    ensures
        union_of(sketch(a), sketch(b)) == sketch(a + b),
    decreases b.len(),
{
    lemma_sketch_len(a);
    if b.len() == 0 {
        assert(a + b =~= a);
        merge_is_idempotent(sketch(a));
    } else {
        let rest = b.drop_last();
        let t = b.last();
        merge_is_sketch_of_union(a, rest);
        lemma_sketch_len(rest);
        assert((a + b).drop_last() =~= a + rest);
        assert(union_of(sketch(a), observe(sketch(rest), t)) =~= observe(
            union_of(sketch(a), sketch(rest)),
            t,
        ));
    }
}

/// `token` is among `tokens` and falls into register `i`.
spec fn hits(tokens: Seq<Seq<u8>>, token: Seq<u8>, i: int) -> bool {
    tokens.contains(token) && slot_of(token) == i
}

proof fn lemma_contains_split(tokens: Seq<Seq<u8>>, token: Seq<u8>)
    requires
        tokens.len() > 0,
    ensures
        tokens.contains(token) <==> tokens.drop_last().contains(token) || tokens.last() == token,
{
    let rest = tokens.drop_last();
    if tokens.contains(token) {
        let k = choose|k: int| 0 <= k < tokens.len() && tokens[k] == token;
        if k < rest.len() {
            assert(rest[k] == token);
        }
    }
    if rest.contains(token) {
        let k = choose|k: int| 0 <= k < rest.len() && rest[k] == token;
        assert(tokens[k] == token);
    }
}

proof fn lemma_register_is_highest_rank(tokens: Seq<Seq<u8>>, i: int)
    requires
        0 <= i < HLL_REGISTERS,
    ensures
        forall|t: Seq<u8>| #[trigger] hits(tokens, t, i) ==> rank_of(t) <= sketch(tokens)[i],
        sketch(tokens)[i] > 0 ==> exists|t: Seq<u8>| #[trigger]
            hits(tokens, t, i) && rank_of(t) == sketch(tokens)[i],
        sketch(tokens)[i] <= MAX_RANK,
    decreases tokens.len(),
{
    lemma_sketch_len(tokens);
    if tokens.len() > 0 {
        let rest = tokens.drop_last();
        let last = tokens.last();
        lemma_sketch_len(rest);
        lemma_register_is_highest_rank(rest, i);
        lemma_contains_split(tokens, last);
        assert forall|t: Seq<u8>| #[trigger] hits(tokens, t, i) implies rank_of(t) <= sketch(
            tokens,
        )[i] by {
            lemma_contains_split(tokens, t);
            if rest.contains(t) {
                assert(hits(rest, t, i));
            }
        }
        if sketch(tokens)[i] > 0 {
            if sketch(tokens)[i] == sketch(rest)[i] {
                let t = choose|t: Seq<u8>| #[trigger]
                    hits(rest, t, i) && rank_of(t) == sketch(rest)[i];
                lemma_contains_split(tokens, t);
                assert(hits(tokens, t, i));
            } else {
                assert(hits(tokens, last, i));
            }
        }
    }
}

proof fn lemma_register_covers(a: Seq<Seq<u8>>, b: Seq<Seq<u8>>, i: int)
    requires
        0 <= i < HLL_REGISTERS,
        forall|t: Seq<u8>| #[trigger] a.contains(t) ==> b.contains(t),
    ensures
        sketch(a)[i] <= sketch(b)[i],
{
    lemma_register_is_highest_rank(a, i);
    lemma_register_is_highest_rank(b, i);
    if sketch(a)[i] > 0 {
        let t = choose|t: Seq<u8>| #[trigger] hits(a, t, i) && rank_of(t) == sketch(a)[i];
        assert(hits(b, t, i));
    }
}

/// What a sketch holds, and so what it estimates, depends on which tokens it has seen, but
/// neither on their order nor on how often each came.
pub proof fn estimate_depends_on_distinct_tokens(a: Seq<Seq<u8>>, b: Seq<Seq<u8>>)
    requires
        forall|t: Seq<u8>| #[trigger] a.contains(t) <==> b.contains(t),
    ensures
        sketch(a) == sketch(b),
        estimate_of(sketch(a)) == estimate_of(sketch(b)),
{
    lemma_sketch_len(a);
    lemma_sketch_len(b);
    assert forall|i: int| 0 <= i < HLL_REGISTERS implies sketch(a)[i] == sketch(b)[i] by {
        lemma_register_covers(a, b, i);
        lemma_register_covers(b, a, i);
    }
    assert(sketch(a) =~= sketch(b));
}

proof fn lemma_zeros_of_blank(n: nat)
    ensures
        zero_registers(Seq::new(n, |i: int| 0u8)) == n,
        harmonic(Seq::new(n, |i: int| 0u8)) == n * pow2(55),
    decreases n,
{
    let s = Seq::new(n, |i: int| 0u8);
    if n > 0 {
        let m = (n - 1) as nat;
        lemma_zeros_of_blank(m);
        assert(s.drop_last() =~= Seq::new(m, |i: int| 0u8));
        assert(s.last() == 0);
        assert(harmonic(s) == harmonic(s.drop_last()) + pow2(55));
        assert(n * pow2(55) == m * pow2(55) + pow2(55)) by (nonlinear_arith)
            requires
                n == m + 1,
        ;
    } else {
        assert(n * pow2(55) == 0) by (nonlinear_arith)
            requires
                n == 0,
        ;
    }
}

proof fn lemma_used_register_counts(registers: Seq<u8>, i: int)
    requires
        0 <= i < registers.len(),
        registers[i] > 0,
    ensures
        zero_registers(registers) < registers.len(),
    decreases registers.len(),
{
    let rest = registers.drop_last();
    if i < rest.len() {
        lemma_used_register_counts(rest, i);
    } else {
        lemma_zeros_at_most(rest);
    }
}

proof fn lemma_zeros_at_most(registers: Seq<u8>)
    ensures
        zero_registers(registers) <= registers.len(),
    decreases registers.len(),
{
    if registers.len() > 0 {
        lemma_zeros_at_most(registers.drop_last());
    }
}

/// A sketch estimates zero exactly where it has seen nothing.
pub proof fn estimate_is_zero_only_for_nothing(tokens: Seq<Seq<u8>>)
    ensures
        estimate_of(sketch(tokens)) == 0 <==> tokens.len() == 0,
{
    let registers = sketch(tokens);
    lemma_sketch_len(tokens);
    lemma2_to64();
    lemma2_to64_rest();
    if tokens.len() == 0 {
        lemma_zeros_of_blank(HLL_REGISTERS as nat);
    } else {
        let t = tokens.last();
        let i = slot_of(t);
        assert(tokens[tokens.len() - 1] == t);
        assert(hits(tokens, t, i));
        lemma_register_is_highest_rank(tokens, i);
        lemma_used_register_counts(registers, i);
        assert forall|j: int| 0 <= j < registers.len() implies registers[j] <= MAX_RANK by {
            lemma_register_is_highest_rank(tokens, j);
        }
        lemma_harmonic_bounds(registers);
        let sum = harmonic(registers);
        let zeros = zero_registers(registers);
        let den = (ALPHA_DENOMINATOR * sum) as nat;
        if in_small_range(sum) && zeros > 0 {
            decay_shrinks(DECAY_START as nat);
            assert(zeros * (DECAY_ONE as nat) <= DECAY_START);
        } else {
            assert(0 < 2 * den <= 2 * ALPHA_NUMERATOR + den);
            let num = (2 * ALPHA_NUMERATOR + den) as nat;
            assert(num / ((2 * den) as nat) >= 1) by (nonlinear_arith)
                requires
                    0 < 2 * den <= num,
            ;
        }
    }
}

proof fn lemma_steps_below_is_least(level: nat, start: nat)
    requires
        level > 0,
    ensures
        level > decay_at(start + steps_below(level, decay_at(start))),
        forall|m: nat|
            start <= m < start + steps_below(level, decay_at(start)) ==> level <= #[trigger] decay_at(m),
    decreases decay_at(start),
{
    let d = decay_at(start);
    if level > d {
    } else {
        decay_shrinks(d);
        assert(decay_at(start + 1) == decay(d));
        lemma_steps_below_is_least(level, start + 1);
    }
}

/// Linear counting finds the least `n` for which `zeros` exceeds `1024 * e^(-(n + 1/2) / 1024)`,
/// that is, the integer nearest to `1024 * ln(1024 / zeros)`.
pub proof fn linear_count_is_nearest(zeros: nat, m: nat)
    requires
        zeros > 0,
    ensures
        zeros * DECAY_ONE > decay_at(linear_count(zeros)),
        m < linear_count(zeros) ==> zeros * DECAY_ONE <= decay_at(m),
{
    lemma_steps_below_is_least(zeros * (DECAY_ONE as nat), 0);
}

/// A reporter is observed in the register that the low ten bits of its word name, under a rank
/// that is one more than the number of times that two divides the rest; the register keeps the
/// highest rank it was shown, and no other register changes.
pub proof fn register_keeps_the_highest_rank(registers: Seq<u8>, token: Seq<u8>, i: int)
    requires
        registers.len() == 1024,
        0 <= i < 1024,
    ensures
        ({
            let word = le_value(blake3_digest(token).take(8));
            let rest = word / 1024;
            let after = observe(registers, token);
            &&& slot_of(token) == word % 1024
            &&& rest == 0 ==> rank_of(token) == 55
            &&& rest % 2 == 1 ==> rank_of(token) == 1
            &&& rest > 0 && twos_in(rest) < 54 ==> rank_of(token) == twos_in(rest) + 1
            &&& after.len() == 1024
            &&& i != word % 1024 ==> after[i] == registers[i]
            &&& i == word % 1024 ==> after[i] >= registers[i] && after[i] >= rank_of(token) && (
            after[i] == registers[i] || after[i] == rank_of(token))
        }),
{
}

/// Two divides a number as often as it divides its half, and once more; it does not divide an
/// odd one.
pub proof fn twos_are_counted_by_halving(w: nat)
    requires
        w > 0,
    ensures
        twos_in(2 * w) == twos_in(w) + 1,
        twos_in(2 * w + 1) == 0,
{
    assert((2 * w) / 2 == w);
    assert((2 * w) % 2 == 0);
}

/// A union's register is the higher of the two, and one of them.
pub proof fn union_keeps_the_higher(a: Seq<u8>, b: Seq<u8>, i: int)
    requires
        a.len() == b.len(),
        0 <= i < a.len(),
    ensures
        union_of(a, b).len() == a.len(),
        union_of(a, b)[i] >= a[i] && union_of(a, b)[i] >= b[i],
        union_of(a, b)[i] == a[i] || union_of(a, b)[i] == b[i],
{
}

/// Each register adds the power of two that its rank is short of the highest, and is counted
/// where it is blank.
pub proof fn registers_add_up(registers: Seq<u8>, r: u8)
    requires
        r <= 55,
    ensures
        harmonic(registers.push(r)) == harmonic(registers) + pow2((55 - r) as nat),
        zero_registers(registers.push(r)) == zero_registers(registers) + (if r == 0 {
            1nat
        } else {
            0nat
        }),
        harmonic(seq![]) == 0,
        zero_registers(seq![]) == 0,
{
    assert(registers.push(r).drop_last() =~= registers);
}

/// Many reporters are counted by rounding to the nearest whole number.
pub proof fn large_count_is_rounded(sum: nat)
    requires
        sum > 0,
        raw_count(sum) < u64::MAX,
    ensures
        ({
            let den = ALPHA_DENOMINATOR * sum;
            let n = raw_count(sum);
            &&& 2 * n * den <= 2 * ALPHA_NUMERATOR + den
            &&& 2 * ALPHA_NUMERATOR + den < 2 * (n + 1) * den
        }),
{
    let den = (ALPHA_DENOMINATOR * sum) as nat;
    assert(den > 0) by (nonlinear_arith)
        requires
            sum > 0,
            den == ALPHA_DENOMINATOR * sum,
            ALPHA_DENOMINATOR == 10250790,
    ;
    let top = (2 * ALPHA_NUMERATOR + den) as int;
    let two = (2 * den) as int;
    let n = top / two;
    vstd::arithmetic::div_mod::lemma_fundamental_div_mod(top, two);
    vstd::arithmetic::div_mod::lemma_mod_bound(top, two);
    assert(2 * n * den == two * n && 2 * (n + 1) * den == two * n + two) by (nonlinear_arith)
        requires
            two == 2 * den,
    ;
}

/// Few reporters are counted by the registers that are still blank, as long as there are any;
/// else, and once there are many, they are counted by the ranks.
pub proof fn count_goes_by_blanks_while_few(registers: Seq<u8>)
    ensures
        ({
            let sum = harmonic(registers);
            let few = 2560 * (ALPHA_DENOMINATOR * sum) >= ALPHA_NUMERATOR;
            let blanks = zero_registers(registers);
            &&& few && blanks > 0 ==> estimate_of(registers) == linear_count(blanks)
            &&& !few || blanks == 0 ==> estimate_of(registers) == raw_count(sum)
        }),
{
}

} // verus!
