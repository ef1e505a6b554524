//! Little-endian bit views of plain integers, and the K-bit chunks that the
//! running-sum decomposition works on.

use vstd::arithmetic::div_mod::{
    lemma_breakdown, lemma_div_denominator, lemma_fundamental_div_mod,
    lemma_mod_division_less_than_divisor, lemma_small_mod,
};
use vstd::arithmetic::mul::{lemma_mul_is_commutative, lemma_mul_is_distributive_sub_other_way};
use vstd::arithmetic::power2::{
    lemma2_to64, lemma_pow2_adds, lemma_pow2_pos, lemma_pow2_strictly_increases,
};
use vstd::bits::{
    lemma_u64_low_bits_mask_is_mod, lemma_u64_pow2_no_overflow, lemma_u64_shl_is_mul,
    lemma_u64_shr_is_div,
};
use vstd::prelude::*;

verus! {

pub use vstd::arithmetic::power2::pow2;

/// Bit `i` of the little-endian binary representation of `v`.
pub open spec fn bit_of(v: nat, i: nat) -> bool {
    (v / pow2(i)) % 2 == 1
}

/// The integer a little-endian bit sequence stands for.
pub open spec fn bits_value(bits: Seq<bool>) -> nat
    decreases bits.len(),
{
    if bits.len() == 0 {
        0
    } else {
        bits_value(bits.drop_last()) + if bits.last() {
            pow2((bits.len() - 1) as nat)
        } else {
            0
        }
    }
}

/// A bit sequence of length `n` is worth less than `2^n`.
pub proof fn lemma_bits_value_bound(bits: Seq<bool>)
    ensures
        bits_value(bits) < pow2(bits.len()),
    decreases bits.len(),
{
    if bits.len() == 0 {
        lemma2_to64();
    } else {
        lemma_bits_value_bound(bits.drop_last());
        vstd::arithmetic::power2::lemma_pow2_unfold(bits.len());
    }
}

/// The little-endian bits of `v` truncated to length `n` are worth `v % 2^n`.
pub proof fn lemma_bits_value_of_int(v: nat, n: nat, bits: Seq<bool>)
    requires
        bits.len() == n,
        forall|i: int| 0 <= i < n ==> bits[i] == bit_of(v, i as nat),
    ensures
        bits_value(bits) == v % pow2(n),
    decreases n,
{
    if n == 0 {
        lemma2_to64();
        lemma_small_mod(0, 1);
        assert(v % pow2(0) == v % 1);
        assert(v as int % 1int == 0) by {
            lemma_fundamental_div_mod(v as int, 1int);
        }
    } else {
        let prefix = bits.drop_last();
        lemma_bits_value_of_int(v, (n - 1) as nat, prefix);
        lemma_pow2_pos((n - 1) as nat);
        lemma_breakdown(v as int, pow2((n - 1) as nat) as int, 2);
        lemma_pow2_adds((n - 1) as nat, 1);
        lemma2_to64();
        assert(pow2(n) == pow2((n - 1) as nat) * 2);
        assert(v % pow2(n) == pow2((n - 1) as nat) * ((v / pow2((n - 1) as nat)) % 2) + v % pow2(
            (n - 1) as nat,
        ));
        lemma_mod_division_less_than_divisor((v / pow2((n - 1) as nat)) as int, 2);
        if bit_of(v, (n - 1) as nat) {
            assert((v / pow2((n - 1) as nat)) % 2 == 1);
        } else {
            assert((v / pow2((n - 1) as nat)) % 2 == 0);
        }
    }
}

/// Shifting the viewpoint: bit `a + i` of `v` is bit `i` of `v / 2^a`.
pub proof fn lemma_bit_of_shift(v: nat, a: nat, i: nat)
    ensures
        bit_of(v, a + i) == bit_of(v / pow2(a), i),
{
    lemma_pow2_pos(a);
    lemma_pow2_pos(i);
    lemma_pow2_adds(a, i);
    lemma_div_denominator(v as int, pow2(a) as int, pow2(i) as int);
}

/// Little-endian bits to integer, as the lookup chunks are decoded.
pub fn lebs2ip(bits: &[bool]) -> (r: u64)
    requires
        bits@.len() <= 64,
    ensures
        r == bits_value(bits@),
{
    let n = bits.len();
    let mut acc: u64 = 0;
    let mut i: usize = 0;
    proof {
        assert(bits@.take(0) =~= Seq::<bool>::empty());
        lemma2_to64();
    }
    while i < n
        invariant
            n == bits@.len() <= 64,
            i <= n,
            acc == bits_value(bits@.take(i as int)),
            acc < pow2(i as nat),
        decreases n - i,
    {
        proof {
            lemma_u64_pow2_no_overflow(i as nat);
            if (i as nat) + 1 < 64 {
                lemma_pow2_strictly_increases((i + 1) as nat, 64);
            }
            lemma2_to64();
            vstd::arithmetic::power2::lemma2_to64_rest();
            lemma_u64_shl_is_mul(1u64, i as u64);
            vstd::arithmetic::power2::lemma_pow2_unfold((i + 1) as nat);
            assert(bits@.take(i + 1).drop_last() =~= bits@.take(i as int));
        }
        if bits[i] {
            acc = acc + (1u64 << i);
        }
        i = i + 1;
    }
    proof {
        assert(bits@.take(n as int) =~= bits@);
    }
    acc
}

/// The little-endian bits of `v`, truncated to the `n` low-order positions.
pub fn to_le_bits(v: u64, n: usize) -> (bits: Vec<bool>)
    requires
        n <= 64,
    ensures
        bits@.len() == n,
        forall|i: int| 0 <= i < n ==> bits@[i] == bit_of(v as nat, i as nat),
{
    let mut bits: Vec<bool> = Vec::new();
    let mut i: usize = 0;
    while i < n
        invariant
            n <= 64,
            i <= n,
            bits@.len() == i,
            forall|j: int| 0 <= j < i ==> bits@[j] == bit_of(v as nat, j as nat),
        decreases n - i,
    {
        proof {
            lemma_u64_shr_is_div(v, i as u64);
            lemma_u64_low_bits_mask_is_mod(v >> (i as u64), 1);
            vstd::bits::lemma_low_bits_mask_values();
            lemma2_to64();
        }
        let b = ((v >> i) & 1u64) == 1;
        bits.push(b);
        i = i + 1;
    }
    bits
}

/// Truncate `v` to its `n` low-order bits.
pub fn truncate(v: u64, n: usize) -> (w: u64)
    requires
        n <= 64,
    ensures
        w == (v as nat) % pow2(n as nat),
        w <= v,
{
    if n == 64 {
        proof {
            vstd::arithmetic::power2::lemma2_to64_rest();
            lemma_small_mod(v as nat, pow2(64));
        }
        v
    } else {
        proof {
            lemma_u64_pow2_no_overflow(n as nat);
            lemma_u64_shl_is_mul(1u64, n as u64);
            lemma_pow2_pos(n as nat);
            lemma_mod_division_less_than_divisor(v as int, pow2(n as nat) as int);
            vstd::arithmetic::div_mod::lemma_mod_decreases(v as nat, pow2(n as nat));
        }
        v % (1u64 << n)
    }
}

/// The number of bits needed to write `v` in binary; 0 for the value 0.
pub open spec fn bit_len(v: nat) -> nat
    decreases v,
{
    if v == 0 {
        0
    } else {
        1 + bit_len(v / 2)
    }
}

/// A nonzero value sits exactly between the two powers of two its bit
/// length names.
pub proof fn lemma_bit_len_bounds(v: nat)
    requires
        v >= 1,
    ensures
        bit_len(v) >= 1,
        pow2((bit_len(v) - 1) as nat) <= v < pow2(bit_len(v)),
    decreases v,
{
    if v == 1 {
        assert(bit_len(0nat) == 0);
        assert(bit_len(1nat) == 1);
        lemma2_to64();
    } else {
        lemma_bit_len_bounds(v / 2);
        let l = bit_len(v / 2);
        assert(bit_len(v) == 1 + l);
        vstd::arithmetic::power2::lemma_pow2_unfold((l + 1) as nat);
        vstd::arithmetic::power2::lemma_pow2_unfold(l);
        lemma_fundamental_div_mod(v as int, 2);
        lemma_mod_division_less_than_divisor(v as int, 2);
        assert(v >= 2 * (v / 2));
        assert(2 * (v / 2) >= 2 * pow2((l - 1) as nat));
        assert(pow2(l) == 2 * pow2((l - 1) as nat));
        assert(v < pow2(l + 1));
    }
}

/// A value below `2^k` needs at most `k` bits.
pub proof fn lemma_bit_len_at_most(v: nat, k: nat)
    requires
        v < pow2(k),
    ensures
        bit_len(v) <= k,
{
    if v >= 1 {
        lemma_bit_len_bounds(v);
        if bit_len(v) > k {
            if k < bit_len(v) - 1 {
                lemma_pow2_strictly_increases(k, (bit_len(v) - 1) as nat);
            }
        }
    }
}

/// Chunk `i` of `w`, reading `k` bits starting at bit `i * k`.
pub open spec fn chunk_of(w: nat, k: nat, i: nat) -> nat {
    (w / pow2(i * k)) % pow2(k)
}

/// The number of chunks a value of `n` declared bits splits into.
pub open spec fn num_chunks(n: nat, k: nat) -> nat
    recommends
        k >= 1,
{
    ((n + k - 1) as nat) / k
}

/// The weighted sum of the first `c` chunks of `w`.
pub open spec fn chunk_sum(w: nat, k: nat, c: nat) -> nat
    decreases c,
{
    if c == 0 {
        0
    } else {
        chunk_sum(w, k, (c - 1) as nat) + chunk_of(w, k, (c - 1) as nat) * pow2(((c - 1) as nat) * k)
    }
}

/// The first `c` chunks of `w` reassemble the `c * k` low-order bits of `w`.
pub proof fn lemma_chunk_sum_is_mod(w: nat, k: nat, c: nat)
    requires
        k >= 1,
    ensures
        chunk_sum(w, k, c) == w % pow2(c * k),
    decreases c,
{
    if c == 0 {
        lemma2_to64();
        assert(c * k == 0) by (nonlinear_arith)
            requires
                c == 0,
        ;
        vstd::arithmetic::div_mod::lemma_mod_multiples_basic(w as int, 1int);
        assert(w * 1 == w);
        assert(w % pow2(0) == 0);
    } else {
        let c1 = (c - 1) as nat;
        lemma_chunk_sum_is_mod(w, k, c1);
        lemma_pow2_pos(c1 * k);
        lemma_pow2_pos(k);
        lemma_breakdown(w as int, pow2(c1 * k) as int, pow2(k) as int);
        lemma_pow2_adds(c1 * k, k);
        lemma_mul_is_distributive_sub_other_way(k as int, c as int, 1int);
        assert(c1 * k + k == c * k);
        assert(w % pow2(c * k) == pow2(c1 * k) * ((w / pow2(c1 * k)) % pow2(k)) + w % pow2(
            c1 * k,
        ));
        lemma_mul_is_commutative(pow2(c1 * k) as int, chunk_of(w, k, c1) as int);
    }
}

/// Splitting a value into `K`-bit chunks loses nothing: for every value
/// below `2^n`, the chunks weighted by their positions reassemble the value
/// exactly.
pub proof fn lemma_chunks_reconstruct(value: nat, k: nat, n: nat)
    requires
        k >= 1,
        value < pow2(n),
    ensures
        chunk_sum(value, k, num_chunks(n, k)) == value,
{
    let c = num_chunks(n, k);
    lemma_chunk_sum_is_mod(value, k, c);
    lemma_num_chunks_cover(n, k);
    if c * k > n {
        lemma_pow2_strictly_increases(n, c * k);
    }
    lemma_small_mod(value, pow2(c * k));
}

/// `num_chunks(n, k)` chunks of width `k` cover all `n` bits.
pub proof fn lemma_num_chunks_cover(n: nat, k: nat)
    requires
        k >= 1,
    ensures
        num_chunks(n, k) * k >= n,
        num_chunks(n, k) * k < n + k,
        n > 0 ==> num_chunks(n, k) >= 1,
{
    let c = num_chunks(n, k);
    let ki = k as int;
    let t = (n + k - 1) as int;
    lemma_fundamental_div_mod(t, ki);
    lemma_mod_division_less_than_divisor(t, ki);
    assert(c == t / ki);
    assert(t == ki * (t / ki) + t % ki);
    lemma_mul_is_commutative(ki, c as int);
    assert(c * k == t - t % ki);
    if c == 0 {
        assert(c * k == 0) by (nonlinear_arith)
            requires
                c == 0,
        ;
    }
}

} // verus!
