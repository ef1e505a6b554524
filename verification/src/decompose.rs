//! The running-sum decomposition gadget.
//!
//! A witnessed value `z_0` is split into `K`-bit chunks through the
//! recurrence `z_{i+1} = (z_i - c_i) * 2^-K`: a field-inverse division
//! standing in for exact integer division.  Every full chunk is checked
//! against the range table through a lookup, the surviving element `z_C` is
//! asserted equal to zero, and a final short chunk, when the declared bit
//! length is not a multiple of `K`, is left-shifted into a full `K`-bit slot
//! and checked again.
//!
//! The gadget trusts the declared bit length as an honest upper bound on the
//! value; it does not prove the bound minimal.  A dishonest pairing raises
//! no error here: it only leaves constraints that the external checker must
//! reject, which is what the contracts of [`DecomposeConfig::assign`] say.

use crate::bits::{
    bit_of, bits_value, chunk_of, chunk_sum, lebs2ip, lemma_bits_value_of_int,
    lemma_chunk_sum_is_mod, lemma_num_chunks_cover, num_chunks, pow2, to_le_bits, truncate,
};
use crate::constraints::{
    chunk_expr_val, constants_ok, copies_ok, lookup_ok_at, partial_ok_at, rows_have_fe,
    spec_satisfied,
};
use crate::field::{valid_modulus, Fe};
use crate::region::{AssignedCell, DecomposeRegion};
use crate::table::{
    lemma_table_covers, lemma_table_membership, table_rows, ConfigurationError, RangeTableConfig,
};
use vstd::arithmetic::div_mod::{
    lemma_add_mod_noop, lemma_basic_div, lemma_div_nonincreasing, lemma_fundamental_div_mod,
    lemma_fundamental_div_mod_converse,
    lemma_mod_decreases, lemma_mod_division_less_than_divisor, lemma_mod_twice,
    lemma_mul_mod_noop_general, lemma_multiply_divide_lt, lemma_small_mod, lemma_sub_mod_noop,
    lemma_sub_mod_noop_right,
};
use vstd::arithmetic::mul::{
    lemma_mul_inequality, lemma_mul_is_associative, lemma_mul_is_commutative,
    lemma_mul_is_distributive_add_other_way, lemma_mul_is_distributive_sub_other_way,
};
use vstd::arithmetic::power2::{
    lemma2_to64, lemma_pow2_adds, lemma_pow2_pos, lemma_pow2_strictly_increases,
};
use vstd::bits::{lemma_u64_pow2_no_overflow, lemma_u64_shl_is_mul};
use vstd::prelude::*;

verus! {

/// The running-sum element before chunk `i` is removed: the witnessed value
/// for `i == 0`, else the `i`-th computed element.
pub open spec fn rs_prev(value: Fe, zs: Seq<Fe>, i: int) -> Fe {
    if i == 0 {
        value
    } else {
        zs[i - 1]
    }
}

/// The declared-length truncation of the witnessed value: what the bit
/// view, and so every chunk, is read from.
pub open spec fn truncated_value(value: Fe, n: nat) -> nat {
    (value.v as nat) % pow2(n)
}

/// The defining recurrence, read backwards: multiplying the next element by
/// `2^K` and adding the chunk gives back the previous element, in the field.
pub open spec fn rs_link(value: Fe, zs: Seq<Fe>, w: nat, k: nat, i: int) -> bool {
    (zs[i].v * pow2(k) + chunk_of(w, k, i as nat)) % (value.m as int) == rs_prev(value, zs, i).v
}

/// One recurrence step, algebraically: if `inv` inverts `2^K` and `z_next`
/// was computed as `(z - c) * inv`, then `z_next * 2^K + c` gives back `z`.
proof fn lemma_rs_step(m: u64, k: nat, z: Fe, c: nat, cfe: Fe, inv: Fe, z_next: Fe)
    requires
        valid_modulus(m),
        z.wf(),
        z.m == m,
        cfe.v == (c as int) % (m as int),
        (inv.v * pow2(k)) % (m as int) == 1,
        z_next.v == (((z.v - cfe.v) % (m as int)) * inv.v) % (m as int),
        z_next.v < m,
    ensures
        (z_next.v * pow2(k) + c) % (m as int) == z.v,
{
    let mi = m as int;
    let p = pow2(k) as int;
    let d = (z.v - cfe.v) % mi;
    lemma_mod_division_less_than_divisor(z.v - cfe.v, mi);
    // (z_next * 2^K) % m == d
    assert((z_next.v * p) % mi == d) by {
        lemma_mul_mod_noop_general((d * inv.v) as int, p, mi);
        assert((z_next.v * p) % mi == (d * inv.v * p) % mi);
        lemma_mul_is_associative(d, inv.v as int, p);
        lemma_mul_mod_noop_general(d, (inv.v * p) as int, mi);
        assert((d * (inv.v * p)) % mi == (d * ((inv.v * p) % mi)) % mi);
        assert(d * 1 == d);
        lemma_small_mod(d as nat, m as nat);
    }
    // (z_next * 2^K + c) % m == (d + c) % m == (z - cfe + cfe) % m == z
    lemma_add_mod_noop((z_next.v * p) as int, c as int, mi);
    lemma_add_mod_noop(z.v - cfe.v, cfe.v as int, mi);
    lemma_small_mod(cfe.v as nat, m as nat);
    lemma_mod_twice(c as int, mi);
    assert((c as int) % mi == cfe.v);
    assert((z_next.v * p + c) % mi == (d + (c as int) % mi) % mi);
    assert((d + cfe.v) % mi == (z.v - cfe.v + cfe.v) % mi);
    lemma_small_mod(z.v as nat, m as nat);
}

/// The honest shape of one recurrence step: removing the low `K`-bit chunk
/// of an integer `a` and dividing in the field is exactly the integer shift
/// `a / 2^K`.
proof fn lemma_rs_step_honest(m: u64, k: nat, a: nat, cfe: Fe, inv: Fe, z_next: Fe)
    requires
        valid_modulus(m),
        a < m,
        cfe.v == ((a % pow2(k)) as int) % (m as int),
        (inv.v * pow2(k)) % (m as int) == 1,
        z_next.v == (((a - cfe.v) % (m as int)) * inv.v) % (m as int),
    ensures
        z_next.v == a / pow2(k),
{
    let mi = m as int;
    let p = pow2(k) as int;
    lemma_pow2_pos(k);
    lemma_fundamental_div_mod(a as int, p);
    assert(a - (a as int) % p == p * ((a as int) / p));
    // d == (p * (a / p)) % m
    lemma_sub_mod_noop_right(a as int, (a as int) % p, mi);
    assert((a - cfe.v) % mi == (a - (a as int) % p) % mi);
    let d = (a - cfe.v) % mi;
    assert(d == (p * ((a as int) / p)) % mi);
    // z_next == ((a / p) * ((inv * p) % m)) % m == (a / p) % m
    lemma_mul_mod_noop_general(p * ((a as int) / p), inv.v as int, mi);
    assert(z_next.v == (p * ((a as int) / p) * inv.v) % mi);
    lemma_mul_is_commutative(p, (a as int) / p);
    lemma_mul_is_associative((a as int) / p, p, inv.v as int);
    lemma_mul_is_commutative(p, inv.v as int);
    assert(p * ((a as int) / p) * inv.v == ((a as int) / p) * (inv.v * p));
    lemma_mul_mod_noop_general((a as int) / p, (inv.v * p) as int, mi);
    assert(z_next.v == (((a as int) / p) * ((inv.v * p) % mi)) % mi);
    assert(((a as int) / p) * 1 == (a as int) / p);
    lemma_div_nonincreasing(a as int, p);
    lemma_small_mod(((a as int) / p) as nat, m as nat);
}

/// The recurrence telescopes: after `j` steps, the surviving element scaled
/// by `2^(jK)` plus the weighted sum of the removed chunks gives back the
/// witnessed value, in the field.
proof fn lemma_rs_telescope(value: Fe, zs: Seq<Fe>, w: nat, k: nat, j: nat)
    requires
        value.wf(),
        k >= 1,
        j <= zs.len(),
        forall|i: int| 0 <= i < zs.len() ==> rs_link(value, zs, w, k, i),
        forall|i: int| 0 <= i < zs.len() ==> (#[trigger] zs[i]).v < value.m,
    ensures
        (rs_prev(value, zs, j as int).v * pow2(j * k) + chunk_sum(w, k, j)) % (value.m as int)
            == value.v,
    decreases j,
{
    let mi = value.m as int;
    if j == 0 {
        lemma2_to64();
        assert(0nat * k == 0) by (nonlinear_arith);
        assert(rs_prev(value, zs, 0).v * pow2(0) == value.v);
        lemma_small_mod(value.v as nat, value.m as nat);
    } else {
        let j1 = (j - 1) as nat;
        lemma_rs_telescope(value, zs, w, k, j1);
        let prev = rs_prev(value, zs, j1 as int);
        let cur = zs[j1 as int];
        let c = chunk_of(w, k, j1);
        let pj1 = pow2(j1 * k) as int;
        let p = pow2(k) as int;
        assert(rs_link(value, zs, w, k, j1 as int));
        assert((cur.v * p + c) % mi == prev.v);
        // pow2(j * k) == pow2(j1 * k) * pow2(k)
        assert(j1 * k + k == j * k) by {
            lemma_mul_is_distributive_sub_other_way(k as int, j as int, 1int);
        }
        lemma_pow2_adds(j1 * k, k);
        // (cur * 2^(jk) + c * 2^(j1 k) + sum) == ((cur * 2^k + c) * 2^(j1 k) + sum)
        let x = cur.v * p + c;
        assert(cur.v * (pj1 * p) == (cur.v * p) * pj1) by {
            lemma_mul_is_associative(cur.v as int, pj1, p);
            lemma_mul_is_commutative(pj1, p);
            lemma_mul_is_associative(cur.v as int, p, pj1);
        }
        lemma_mul_is_distributive_add_other_way(pj1, (cur.v * p) as int, c as int);
        assert(x * pj1 == (cur.v * p) * pj1 + c * pj1);
        // reduce the leading factor modulo m
        let sum1 = chunk_sum(w, k, j1);
        assert((x * pj1 + sum1) % mi == (prev.v * pj1 + sum1) % mi) by {
            lemma_add_mod_noop((x * pj1) as int, sum1 as int, mi);
            lemma_mul_mod_noop_general(x, pj1, mi);
            assert((x * pj1) % mi == ((x % mi) * pj1) % mi);
            assert(x % mi == prev.v);
            lemma_add_mod_noop((prev.v * pj1) as int, sum1 as int, mi);
        }
        assert(chunk_sum(w, k, j) == sum1 + c * pow2(j1 * k));
        assert((zs[j - 1].v * pow2(j * k) + chunk_sum(w, k, j)) % mi == value.v);
    }
}

/// Copy out `bits[lo..hi]`.
fn bit_slice(bits: &Vec<bool>, lo: usize, hi: usize) -> (cb: Vec<bool>)
    requires
        lo <= hi <= bits@.len(),
    ensures
        cb@.len() == hi - lo,
        forall|t: int| 0 <= t < cb@.len() ==> cb@[t] == bits@[lo + t],
{
    let mut cb: Vec<bool> = Vec::new();
    let mut j = lo;
    while j < hi
        invariant
            lo <= j <= hi <= bits@.len(),
            cb@.len() == j - lo,
            forall|t: int| 0 <= t < cb@.len() ==> cb@[t] == bits@[lo + t],
        decreases hi - j,
    {
        let b = bits[j];
        cb.push(b);
        j = j + 1;
    }
    cb
}

/// A slice of the bit view decodes to the corresponding chunk.
proof fn lemma_chunk_slice(w: nat, n: nat, k: nat, i: nat, cb: Seq<bool>)
    requires
        1 <= k,
        w < pow2(n),
        i * k < n,
        cb.len() == if i * k + k <= n {
            k as int
        } else {
            n - i * k
        },
        forall|t: int| 0 <= t < cb.len() ==> cb[t] == bit_of(w, (i * k + t) as nat),
    ensures
        bits_value(cb) == chunk_of(w, k, i),
        chunk_of(w, k, i) < pow2(cb.len() as nat),
{
    let lo = i * k;
    let len = cb.len() as nat;
    let q = w / pow2(lo);
    assert forall|t: int| 0 <= t < cb.len() implies cb[t] == bit_of(q, t as nat) by {
        crate::bits::lemma_bit_of_shift(w, lo, t as nat);
    }
    lemma_bits_value_of_int(q, len, cb);
    // q < pow2(n - lo)
    lemma_pow2_pos(lo);
    lemma_pow2_adds(lo, (n - lo) as nat);
    lemma_multiply_divide_lt(w as int, pow2(lo) as int, pow2((n - lo) as nat) as int);
    if lo + k <= n {
        assert(len == k);
    } else {
        // short final chunk: the value already fits, both mods are identities
        assert(len == n - lo);
        lemma_small_mod(q, pow2(len));
        lemma_pow2_pos(len);
        if len < k {
            lemma_pow2_strictly_increases(len, k);
        }
        lemma_small_mod(q, pow2(k));
    }
    lemma_pow2_pos(len);
    lemma_mod_division_less_than_divisor(q as int, pow2(len) as int);
}


/// Extract chunk `i` of the `n`-bit value `w` from its bit view, as the
/// host-side assignment does: slice the bits, then decode little-endian.
fn extract_chunk(bits: &Vec<bool>, w: u64, n: usize, k: usize, i: usize) -> (c: u64)
    requires
        1 <= k <= 63,
        1 <= n <= 64,
        w < pow2(n as nat),
        bits@.len() == n,
        forall|t: int| 0 <= t < n ==> bits@[t] == bit_of(w as nat, t as nat),
        i < num_chunks(n as nat, k as nat),
    ensures
        c == chunk_of(w as nat, k as nat, i as nat),
        c < pow2(k as nat),
        i * k + k <= n ==> c < pow2(k as nat),
        i * k + k > n ==> c < pow2((n - i * k) as nat),
{
    proof {
        lemma_num_chunks_cover(n as nat, k as nat);
        let cc = num_chunks(n as nat, k as nat);
        lemma_mul_inequality(i + 1, cc as int, k as int);
        assert((i + 1) * k == i * k + k) by {
            lemma_mul_is_distributive_add_other_way(k as int, i as int, 1int);
        }
        assert(cc * k < n + k);
        assert(i * k + k <= cc * k);
        assert(i * k < n);
    }
    let lo = i * k;
    let hi = if lo + k <= n {
        lo + k
    } else {
        n
    };
    let cb = bit_slice(bits, lo, hi);
    let c = lebs2ip(cb.as_slice());
    proof {
        lemma_chunk_slice(w as nat, n as nat, k as nat, i as nat, cb@);
        if !(i * k + k <= n) {
            lemma_pow2_strictly_increases((n - i * k) as nat, k as nat);
        }
    }
    c
}

/// Compute the interstitial running-sum elements `z_1, ..., z_C` for a
/// witnessed value and a declared bit length.
///
/// The contract pins each element through the recurrence, and adds the two
/// facts the gadget's soundness rests on: a truthful declaration makes every
/// element the corresponding integer shift of the value and the terminal
/// element zero; an untruthful one makes the terminal element nonzero.
pub fn compute_running_sum(value: Fe, num_bits: usize, k: usize) -> (zs: Vec<Fe>)
    requires
        value.wf(),
        1 <= k <= 63,
        1 <= num_bits <= 64,
    ensures
        zs@.len() == num_chunks(num_bits as nat, k as nat),
        forall|i: int| 0 <= i < zs@.len() ==> (#[trigger] zs@[i]).wf() && zs@[i].m == value.m,
        forall|i: int|
            0 <= i < zs@.len() ==> #[trigger] rs_link(
                value,
                zs@,
                truncated_value(value, num_bits as nat),
                k as nat,
                i,
            ),
        value.v < pow2(num_bits as nat) ==> forall|i: int|
            0 <= i < zs@.len() ==> (#[trigger] zs@[i]).v == (value.v as nat) / pow2(
                ((i + 1) * k) as nat,
            ),
        value.v < pow2(num_bits as nat) ==> zs@[zs@.len() - 1].v == 0,
        value.v >= pow2(num_bits as nat) ==> zs@[zs@.len() - 1].v != 0,
{
    let m = value.m;
    let n = num_bits;
    let c_total = (n + k - 1) / k;
    proof {
        lemma_num_chunks_cover(n as nat, k as nat);
        assert(c_total == num_chunks(n as nat, k as nat));
    }
    let w = truncate(value.v, n);
    let bits = to_le_bits(w, n);
    proof {
        lemma_pow2_pos(n as nat);
        lemma_mod_division_less_than_divisor(value.v as int, pow2(n as nat) as int);
    }
    let inv2k = Fe::inv_two_pow(m, k);
    let mut zs: Vec<Fe> = Vec::new();
    let mut z = value;
    let mut i: usize = 0;
    proof {
        lemma2_to64();
        assert(0nat * (k as nat) == 0) by (nonlinear_arith);
    }
    while i < c_total
        invariant
            value.wf(),
            m == value.m,
            1 <= k <= 63,
            1 <= n <= 64,
            c_total == num_chunks(n as nat, k as nat),
            w == (value.v as nat) % pow2(n as nat),
            w < pow2(n as nat),
            bits@.len() == n,
            forall|t: int| 0 <= t < n ==> bits@[t] == bit_of(w as nat, t as nat),
            inv2k.wf(),
            inv2k.m == m,
            (inv2k.v * pow2(k as nat)) % (m as int) == 1,
            i <= c_total,
            zs@.len() == i,
            forall|j: int| 0 <= j < i ==> (#[trigger] zs@[j]).wf() && zs@[j].m == m,
            forall|j: int| 0 <= j < i ==> rs_link(value, zs@, w as nat, k as nat, j),
            z == rs_prev(value, zs@, i as int),
            value.v < pow2(n as nat) ==> z.v == (value.v as nat) / pow2((i * k) as nat),
            value.v < pow2(n as nat) ==> forall|j: int|
                0 <= j < i ==> (#[trigger] zs@[j]).v == (value.v as nat) / pow2(
                    ((j + 1) * k) as nat,
                ),
        decreases c_total - i,
    {
        let ghost old_zs = zs@;
        let c_int = extract_chunk(&bits, w, n, k, i);
        let cfe = Fe::from_u64(m, c_int);
        let diff = z.minus(cfe);
        let z_next = diff.times(inv2k);
        proof {
            lemma_rs_step(
                m,
                k as nat,
                z,
                c_int as nat,
                cfe,
                inv2k,
                z_next,
            );
            if value.v < pow2(n as nat) {
                // honest: w == value.v and the chunk is the low K bits of z
                lemma_small_mod(value.v as nat, pow2(n as nat));
                let a = z.v as nat;
                assert(chunk_of(w as nat, k as nat, i as nat) == a % pow2(k as nat)) by {
                    lemma_pow2_pos((i * k) as nat);
                    lemma_pow2_pos(k as nat);
                }
                lemma_rs_step_honest(m, k as nat, a, cfe, inv2k, z_next);
                // z_next == (value / 2^(ik)) / 2^K == value / 2^((i+1)k)
                lemma_pow2_adds((i * k) as nat, k as nat);
                lemma_pow2_pos((i * k) as nat);
                lemma_pow2_pos(k as nat);
                vstd::arithmetic::div_mod::lemma_div_denominator(
                    value.v as int,
                    pow2((i * k) as nat) as int,
                    pow2(k as nat) as int,
                );
                assert((i + 1) * k == i * k + k) by {
                    lemma_mul_is_distributive_add_other_way(k as int, i as int, 1int);
                }
            }
        }
        zs.push(z_next);
        z = z_next;
        proof {
            assert(zs@ == old_zs.push(z_next));
            assert forall|j: int| 0 <= j < i + 1 implies rs_link(
                value,
                zs@,
                w as nat,
                k as nat,
                j,
            ) by {
                if j < i {
                    assert(rs_link(value, old_zs, w as nat, k as nat, j));
                    assert(zs@[j] == old_zs[j]);
                    if j > 0 {
                        assert(zs@[j - 1] == old_zs[j - 1]);
                    }
                }
            }
        }
        i = i + 1;
    }
    proof {
        let w_n = w as nat;
        let kn = k as nat;
        let cn = c_total as nat;
        lemma_num_chunks_cover(n as nat, kn);
        if value.v < pow2(n as nat) {
            // terminal element: value / 2^(Ck) == 0
            if (cn * kn) > n as nat {
                lemma_pow2_strictly_increases(n as nat, cn * kn);
            }
            lemma_pow2_pos(cn * kn);
            lemma_basic_div(value.v as int, pow2(cn * kn) as int);
            assert(zs@[zs@.len() - 1] == rs_prev(value, zs@, c_total as int));
        } else {
            // dishonest: a zero terminal element would force value == w < 2^n
            if zs@[zs@.len() - 1].v == 0 {
                assert(forall|j: int|
                    0 <= j < zs@.len() ==> (#[trigger] zs@[j]).v < value.m);
                lemma_rs_telescope(value, zs@, w_n, kn, cn);
                let last = rs_prev(value, zs@, cn as int);
                assert(last.v == 0);
                let mi = value.m as int;
                assert((last.v * pow2(cn * kn) + chunk_sum(w_n, kn, cn)) % mi == value.v);
                assert(0int * pow2(cn * kn) == 0) by (nonlinear_arith);
                lemma_chunk_sum_is_mod(w_n, kn, cn);
                if (cn * kn) > n as nat {
                    lemma_pow2_strictly_increases(n as nat, cn * kn);
                }
                lemma_small_mod(w_n, pow2(cn * kn));
                assert(chunk_sum(w_n, kn, cn) == w_n);
                assert(w_n < value.m);
                lemma_small_mod(w_n, value.m as nat);
                assert(w_n == value.v);
                lemma_mod_decreases(value.v as nat, pow2(n as nat));
                assert(false);
            }
        }
    }
    zs
}


/// How the full-chunk count relates to the floor division of the declared
/// length: exact when the length is a multiple of the width, one more
/// otherwise.
proof fn lemma_floor_chunks(n: nat, k: nat)
    requires
        1 <= k,
    ensures
        n % k == 0 ==> num_chunks(n, k) == n / k,
        n % k != 0 ==> num_chunks(n, k) == n / k + 1,
        n % k != 0 ==> n - (n / k) * k == n % k,
{
    let q = n / k;
    let s = n % k;
    lemma_fundamental_div_mod(n as int, k as int);
    lemma_mod_division_less_than_divisor(n as int, k as int);
    assert(n == k * q + s);
    lemma_mul_is_commutative(k as int, q as int);
    if s == 0 {
        assert((n + k - 1) as int == (q as int) * (k as int) + (k - 1)) by {
            lemma_mul_is_commutative(k as int, q as int);
        }
        lemma_fundamental_div_mod_converse((n + k - 1) as int, k as int, q as int, (k - 1) as int);
    } else {
        assert((n + k - 1) as int == ((q + 1) as int) * (k as int) + (s - 1)) by {
            lemma_mul_is_distributive_add_other_way(k as int, q as int, 1int);
        }
        lemma_fundamental_div_mod_converse(
            (n + k - 1) as int,
            k as int,
            (q + 1) as int,
            (s - 1) as int,
        );
    }
}

/// From the recurrence link back to the wired lookup expression: the chunk
/// expression read off two neighbouring cells evaluates to the chunk
/// itself, embedded in the field.
proof fn lemma_expr_is_chunk(m: u64, k: nat, z_cur: Fe, z_next: Fe, c: nat)
    requires
        valid_modulus(m),
        z_cur.m == m,
        z_cur.v < m,
        (z_next.v * pow2(k) + c) % (m as int) == z_cur.v,
    ensures
        chunk_expr_val(z_cur, z_next, k) == (c as int) % (m as int),
{
    let mi = m as int;
    let y = (z_next.v * pow2(k)) as int;
    let x = y + c;
    lemma_sub_mod_noop(x, y, mi);
    lemma_sub_mod_noop(x % mi, y, mi);
    lemma_mod_twice(x, mi);
    lemma_mod_twice(y, mi);
    assert(((x % mi) - y) % mi == (x - y) % mi);
    assert(z_cur.v == x % mi);
    assert(x - y == c);
}

/// The partial-chunk gate holds of the three cells the gadget writes: the
/// final chunk times `2^K` times `2^-s` is the witnessed shifted chunk.
proof fn lemma_partial_gate(m: u64, k: nat, s: nat, c: nat, fc: int, invv: u64, shifted: int)
    requires
        valid_modulus(m),
        1 <= s <= k,
        fc == (c as int) % (m as int),
        (invv * pow2(s)) % (m as int) == 1,
        shifted == (((c as int) % (m as int)) * pow2((k - s) as nat)) % (m as int),
    ensures
        (fc * pow2(k) * invv) % (m as int) == shifted,
{
    let mi = m as int;
    let pk = pow2(k) as int;
    let pks = pow2((k - s) as nat) as int;
    let ps = pow2(s) as int;
    lemma_pow2_adds((k - s) as nat, s);
    assert(pk == pks * ps);
    // both sides reduce to (c * 2^(k-s)) % m
    assert(shifted == (c * pks) % mi) by {
        lemma_mul_mod_noop_general(c as int, pks, mi);
    }
    assert((fc * pk) % mi == (c * pk) % mi) by {
        lemma_mul_mod_noop_general(c as int, pk, mi);
    }
    assert((fc * pk * invv) % mi == (c * pk * invv) % mi) by {
        lemma_mul_mod_noop_general((fc * pk) as int, invv as int, mi);
        lemma_mul_mod_noop_general((c * pk) as int, invv as int, mi);
    }
    assert(c * pk * invv == (c * pks) * (ps * invv)) by {
        lemma_mul_is_associative(c as int, pks, ps);
        lemma_mul_is_associative((c * pks) as int, ps, invv as int);
    }
    assert((ps * invv) % mi == 1) by {
        lemma_mul_is_commutative(ps, invv as int);
    }
    assert(((c * pks) * (ps * invv)) % mi == ((c * pks) * 1) % mi) by {
        lemma_mul_mod_noop_general((c * pks) as int, (ps * invv) as int, mi);
        lemma_mul_mod_noop_general((c * pks) as int, 1int, mi);
    }
}


/// What the gadget writes is satisfiable exactly when the terminal element
/// is zero: every lookup, the partial-chunk gate and the equality copies
/// hold by construction, and the one equality-to-constant assertion on the
/// terminal running-sum cell decides the rest.
proof fn lemma_assign_satisfied(
    region: DecomposeRegion,
    value: Fe,
    zs: Seq<Fe>,
    w: nat,
    k: nat,
    m: u64,
    s: nat,
    partial: bool,
)
    requires
        valid_modulus(m),
        1 <= k <= 63,
        value.wf(),
        value.m == m,
        zs.len() >= 1,
        forall|i: int| 0 <= i < zs.len() ==> (#[trigger] zs[i]).wf() && zs[i].m == m,
        forall|i: int| 0 <= i < zs.len() ==> #[trigger] rs_link(value, zs, w, k, i),
        region.column@.len() == (if partial {
            zs.len() + 3
        } else {
            zs.len() + 1
        }),
        forall|j: int| 0 <= j <= zs.len() ==> region.column@[j] == rs_prev(value, zs, j),
        forall|j: int|
            0 <= j < region.column@.len() ==> (#[trigger] region.column@[j]).wf()
                && region.column@[j].m == m,
        region.q_decompose@.len() == region.column@.len(),
        forall|t: int|
            0 <= t < region.q_decompose@.len() ==> region.q_decompose@[t] == (t < (if partial {
                zs.len() - 1
            } else {
                zs.len() as int
            })),
        region.q_partial_check@.len() == region.column@.len(),
        forall|t: int|
            0 <= t < region.q_partial_check@.len() ==> region.q_partial_check@[t] == (partial && t
                == zs.len()),
        region.constants@.len() == (if partial {
            2int
        } else {
            1int
        }),
        region.constants@[0].0 == zs.len(),
        region.constants@[0].1.v == 0,
        partial ==> region.constants@[1].0 == zs.len() + 2 && region.constants@[1].1
            == region.column@[zs.len() as int + 2],
        region.copies@ == seq![(value, 0usize)],
        partial ==> 1 <= s < k,
        partial ==> chunk_of(w, k, (zs.len() - 1) as nat) < pow2(s),
        partial ==> region.column@[zs.len() as int + 1].v == (((chunk_of(
            w,
            k,
            (zs.len() - 1) as nat,
        ) as int) % (m as int)) * pow2((k - s) as nat)) % (m as int),
        partial ==> (region.column@[zs.len() as int + 2].v * pow2(s)) % (m as int) == 1,
    ensures
        spec_satisfied(region, table_rows(k), k, m) <==> region.column@[zs.len() as int].v == 0,
{
    let mi = m as int;
    let cn = zs.len() as int;
    let rows = table_rows(k);
    let col = region.column@;
    lemma_table_membership(k);
    lemma_pow2_strictly_increases(k, 64);
    vstd::arithmetic::power2::lemma2_to64_rest();
    lemma_pow2_pos(k);

    // the sentinel row absorbs every selector-off lookup input
    assert(rows.contains((1u64, 0u64)));
    let si = choose|ii: int| 0 <= ii < rows.len() && rows[ii] == (1u64, 0u64);
    lemma_small_mod(0nat, m as nat);
    assert(rows[si].1 as int % mi == 0);
    assert(rows_have_fe(rows, 0, m));

    // every full-chunk lookup row holds
    assert forall|o: int| 0 <= o < col.len() implies lookup_ok_at(region, rows, k, m, o) by {
        if region.q_decompose@[o] {
            let cval = chunk_of(w, k, o as nat);
            assert(rs_link(value, zs, w, k, o));
            assert(col[o] == rs_prev(value, zs, o));
            assert(col[o + 1] == rs_prev(value, zs, o + 1));
            assert(rs_prev(value, zs, o + 1) == zs[o]);
            lemma_expr_is_chunk(m, k, col[o], col[o + 1], cval);
            lemma_mod_division_less_than_divisor(
                ((w / pow2((o as nat) * k)) as int),
                pow2(k) as int,
            );
            assert(cval < pow2(k));
            lemma_table_covers(k, cval as u64);
            let wi = choose|ii: int| 0 <= ii < rows.len() && rows[ii].1 == cval as u64;
            assert(rows[wi].1 as int % mi == chunk_expr_val(col[o], col[o + 1], k));
            assert(rows_have_fe(rows, chunk_expr_val(col[o], col[o + 1], k), m));
        }
    }
    // every partial-chunk row holds
    assert forall|o: int| 0 <= o < col.len() implies partial_ok_at(region, rows, k, m, o) by {
        if region.q_partial_check@[o] {
            assert(partial && o == cn);
            let cval = chunk_of(w, k, (cn - 1) as nat);
            assert(rs_link(value, zs, w, k, cn - 1));
            assert(col[cn - 1] == rs_prev(value, zs, cn - 1));
            assert(col[cn] == rs_prev(value, zs, cn));
            assert(rs_prev(value, zs, cn) == zs[cn - 1]);
            lemma_expr_is_chunk(m, k, col[cn - 1], col[cn], cval);
            lemma_partial_gate(
                m,
                k,
                s,
                cval,
                chunk_expr_val(col[cn - 1], col[cn], k),
                col[cn + 2].v,
                col[cn + 1].v as int,
            );
            // the witnessed shifted chunk is a K-bit value and so in the table
            let pks = pow2((k - s) as nat);
            let shifted_int = cval * pks;
            assert(shifted_int < pow2(k)) by {
                lemma_pow2_adds((k - s) as nat, s);
                lemma_pow2_pos((k - s) as nat);
                lemma_pow2_pos(s);
                lemma_mul_inequality(cval as int, pow2(s) - 1, pks as int);
                lemma_mul_is_distributive_sub_other_way(pks as int, pow2(s) as int, 1int);
                lemma_mul_is_commutative(pow2(s) as int, pks as int);
            }
            assert(col[cn + 1].v as int == (shifted_int as int) % mi) by {
                lemma_mul_mod_noop_general(cval as int, pks as int, mi);
            }
            lemma_table_covers(k, shifted_int as u64);
            let wi2 = choose|ii: int| 0 <= ii < rows.len() && rows[ii].1 == shifted_int as u64;
            assert(rows[wi2].1 as int % mi == col[cn + 1].v as int);
            assert(rows_have_fe(rows, col[cn + 1].v as int, m));
        }
    }
    // the equality copy of the witnessed value holds
    assert(copies_ok(region)) by {
        assert(region.copies@[0] == (value, 0usize));
        assert(col[0] == rs_prev(value, zs, 0));
    }
    // the terminal-zero assertion decides satisfiability
    if col[cn].v == 0 {
        assert(constants_ok(region)) by {
            assert(region.constants@[0].0 as int == cn);
            if partial {
                assert(region.constants@[1].1 == col[cn + 2]);
            }
        }
        assert(spec_satisfied(region, rows, k, m));
    } else {
        assert(!constants_ok(region)) by {
            assert(col[region.constants@[0].0 as int].v != region.constants@[0].1.v);
        }
        assert(!spec_satisfied(region, rows, k, m));
    }
}

/// The decomposition gadget's configuration: the range table its chunks are
/// looked up in.  The advice column and the two selectors it drives are the
/// host system's; their meaning is the constraint semantics in
/// [`crate::constraints`].
#[derive(Clone, Copy, Debug, PartialEq, Eq, Structural)]
pub struct DecomposeConfig {
    /// The lookup table of all values of `1..=K` bits.
    pub table: RangeTableConfig,
}

impl DecomposeConfig {
    /// The chunk width `K`.
    pub open spec fn k(self) -> nat {
        self.table.num_bits as nat
    }

    /// A usable configuration: a positive chunk width whose table fits.
    pub open spec fn wf(self) -> bool {
        1 <= self.table.num_bits <= 63
    }

    /// Configure the gadget.  The claimed table size must be exactly `2^K`,
    /// checked once here and fatal when wrong; a chunk width of zero splits
    /// nothing and is refused the same way.
    pub fn configure(num_bits: usize, claimed_range: u64) -> (r: Result<
        DecomposeConfig,
        ConfigurationError,
    >)
        ensures
            r is Ok <==> (num_bits >= 1 && claimed_range == pow2(num_bits as nat)),
            r is Ok ==> r->Ok_0.wf() && r->Ok_0.table.num_bits == num_bits,
    {
        if num_bits == 0 {
            return Err(ConfigurationError);
        }
        match RangeTableConfig::configure(num_bits, claimed_range) {
            Ok(table) => Ok(DecomposeConfig { table }),
            Err(e) => Err(e),
        }
    }

    /// Constrain `element` to be a `partial_len`-bit word: witness its left
    /// shift into a full `K`-bit slot, witness the constant `2^-partial_len`
    /// from a fixed cell, and enable the partial-check selector on the row at
    /// `offset`, the terminal running-sum row.
    pub fn short_range_check(
        &self,
        region: &mut DecomposeRegion,
        m: u64,
        offset: usize,
        element: Fe,
        partial_len: usize,
    )
        requires
            self.wf(),
            old(region).wf(m),
            element.wf(),
            element.m == m,
            1 <= partial_len < self.k(),
            old(region).column@.len() == offset + 1,
        ensures
            final(region).wf(m),
            final(region).column@.len() == offset + 3,
            forall|t: int|
                0 <= t <= offset ==> final(region).column@[t] == old(region).column@[t],
            final(region).column@[offset + 1].v == (element.v * pow2(
                (self.k() - partial_len) as nat,
            )) % (m as int),
            (final(region).column@[offset + 2].v * pow2(partial_len as nat)) % (m as int) == 1,
            final(region).q_decompose@ == old(region).q_decompose@.push(false).push(false),
            final(region).q_partial_check@ == old(region).q_partial_check@.update(
                offset as int,
                true,
            ).push(false).push(false),
            final(region).constants@ == old(region).constants@.push(
                ((offset + 2) as usize, final(region).column@[offset + 2]),
            ),
            final(region).copies@ == old(region).copies@,
    {
        region.enable_q_partial_check(m, offset);
        proof {
            lemma_u64_pow2_no_overflow((self.k() - partial_len) as nat);
            lemma_u64_shl_is_mul(1u64, (self.table.num_bits - partial_len) as u64);
        }
        let shift_fe = Fe::from_u64(m, 1u64 << (self.table.num_bits - partial_len));
        let shifted = element.times(shift_fe);
        proof {
            lemma_mul_mod_noop_general(
                element.v as int,
                pow2((self.k() - partial_len) as nat) as int,
                m as int,
            );
        }
        region.assign_advice(m, shifted);
        let inv = Fe::inv_two_pow(m, partial_len);
        region.assign_advice_from_constant(m, inv);
    }

    /// Assign one decomposition: copy the witnessed value in at the first
    /// row, write the interstitial running-sum elements below it, enable the
    /// full-chunk lookup selector on every full-chunk row, assert the
    /// terminal element equal to zero, and, when the declared bit length is
    /// not a multiple of `K`, extract, shift and recheck the final short
    /// chunk.  Returns the written region and a handle to the terminal
    /// running-sum cell, for further wiring by the caller.
    ///
    /// The declared bit length is trusted as an honest upper bound, never
    /// checked here: a dishonest pairing raises no error and shows only as
    /// an unsatisfiable region.  The contract says exactly that: the region
    /// satisfies the gadget's constraints if and only if its terminal
    /// element is zero, which happens exactly when the value fits the
    /// declared length.  Failures to write a cell belong to the host
    /// system and surface in its adapter; the model's writes cannot fail.
    pub fn assign(&self, value: AssignedCell, num_bits: usize) -> (res: (
        DecomposeRegion,
        AssignedCell,
    ))
        requires
            self.wf(),
            value.value.wf(),
            1 <= num_bits <= 64,
        ensures
            res.0.wf(value.value.m),
            res.0.column@.len() == (if num_bits as nat % self.k() == 0 {
                num_chunks(num_bits as nat, self.k()) + 1
            } else {
                num_chunks(num_bits as nat, self.k()) + 3
            }),
            res.0.column@[0] == value.value,
            res.1.offset == num_chunks(num_bits as nat, self.k()),
            res.1.value == res.0.column@[num_chunks(num_bits as nat, self.k()) as int],
            num_bits as nat % self.k() == 0 ==> forall|o: int|
                0 <= o < res.0.q_partial_check@.len() ==> !res.0.q_partial_check@[o],
            spec_satisfied(res.0, table_rows(self.k()), self.k(), value.value.m) <==> res.1.value.v
                == 0,
            value.value.v < pow2(num_bits as nat) ==> res.1.value.v == 0,
            value.value.v >= pow2(num_bits as nat) ==> res.1.value.v != 0,
    {
        let m = value.value.m;
        let k = self.table.num_bits;
        let n = num_bits;
        let partial_len = n % k;
        proof {
            lemma_floor_chunks(n as nat, k as nat);
            lemma_num_chunks_cover(n as nat, k as nat);
        }
        let mut region = DecomposeRegion::new(m);
        let z0 = region.copy_advice(m, &value);
        proof {
            assert(region.column@ =~= seq![value.value]);
            assert(region.copies@ =~= seq![(value.value, 0usize)]);
        }
        let zs = compute_running_sum(value.value, n, k);
        let c_total = zs.len();
        let ghost w = truncated_value(value.value, n as nat);
        proof {
            assert(c_total == num_chunks(n as nat, k as nat));
            assert(c_total >= 1);
        }
        // write the running sum below the copied-in value
        let mut z = z0;
        let mut i: usize = 0;
        while i < c_total
            invariant
                valid_modulus(m),
                region.wf(m),
                value.value.wf(),
                value.value.m == m,
                c_total == zs@.len(),
                i <= c_total,
                region.column@ == seq![value.value] + zs@.take(i as int),
                region.q_decompose@.len() == i + 1,
                forall|t: int| 0 <= t < i + 1 ==> !region.q_decompose@[t],
                region.q_partial_check@.len() == i + 1,
                forall|t: int| 0 <= t < i + 1 ==> !region.q_partial_check@[t],
                region.constants@.len() == 0,
                region.copies@ == seq![(value.value, 0usize)],
                z.offset == i,
                z.value == region.column@[i as int],
                forall|j: int| 0 <= j < c_total ==> (#[trigger] zs@[j]).wf() && zs@[j].m == m,
            decreases c_total - i,
        {
            let zi = zs[i];
            z = region.assign_advice(m, zi);
            proof {
                assert(region.column@ =~= seq![value.value] + zs@.take(i + 1));
            }
            i = i + 1;
        }
        proof {
            assert(zs@.take(c_total as int) =~= zs@);
            assert(region.column@ == seq![value.value] + zs@);
        }
        // enable the full-chunk lookup selector on every full-chunk row
        let floor = n / k;
        proof {
            assert(floor <= c_total);
        }
        let mut o: usize = 0;
        while o < floor
            invariant
                valid_modulus(m),
                region.wf(m),
                floor <= c_total,
                o <= floor,
                c_total == zs@.len(),
                region.column@ == seq![value.value] + zs@,
                region.column@.len() == c_total + 1,
                region.q_decompose@.len() == c_total + 1,
                forall|t: int| 0 <= t < c_total + 1 ==> region.q_decompose@[t] == (t < o),
                region.q_partial_check@.len() == c_total + 1,
                forall|t: int| 0 <= t < c_total + 1 ==> !region.q_partial_check@[t],
                region.constants@.len() == 0,
                region.copies@ == seq![(value.value, 0usize)],
            decreases floor - o,
        {
            region.enable_q_decompose(m, o);
            o = o + 1;
        }
        // pin the terminal running-sum element to zero
        let zero = Fe::zero(m);
        region.constrain_constant(m, &z, zero);
        proof {
            assert(region.constants@ =~= seq![(c_total, zero)]);
            assert forall|j: int| 0 <= j <= c_total implies region.column@[j] == rs_prev(
                value.value,
                zs@,
                j,
            ) by {
                if j > 0 {
                    assert(region.column@[j] == zs@[j - 1]);
                }
            }
        }
        if partial_len > 0 {
            // extract the final short chunk from the bit view of the value
            let w_exec = truncate(value.value.v, n);
            let bits_v = to_le_bits(w_exec, n);
            proof {
                assert((c_total - 1) * k == c_total * k - k) by {
                    lemma_mul_is_distributive_sub_other_way(
                        k as int,
                        c_total as int,
                        1int,
                    );
                }
                assert((c_total - 1) as nat == (n as nat) / (k as nat));
                lemma_pow2_pos(n as nat);
                lemma_mod_division_less_than_divisor(
                    value.value.v as int,
                    pow2(n as nat) as int,
                );
            }
            let fc = extract_chunk(&bits_v, w_exec, n, k, c_total - 1);
            let element = Fe::from_u64(m, fc);
            self.short_range_check(&mut region, m, c_total, element, partial_len);
            proof {
                let kn = k as nat;
                let s = partial_len as nat;
                let cn = c_total as int;
                assert(n as nat - ((n as nat) / kn) * kn == s);
                assert(fc == chunk_of(w, kn, (c_total - 1) as nat));
                assert(fc < pow2(s));
                assert forall|t: int|
                    0 <= t < region.q_decompose@.len() implies region.q_decompose@[t] == (t < cn
                    - 1) by {}
                assert forall|t: int|
                    0 <= t < region.q_partial_check@.len() implies region.q_partial_check@[t] == (t
                    == cn) by {}
                assert forall|j: int| 0 <= j <= cn implies region.column@[j] == rs_prev(
                    value.value,
                    zs@,
                    j,
                ) by {}
                assert(region.constants@[0] == (c_total, zero));
                assert(region.constants@[1] == (((c_total + 2) as usize), region.column@[cn + 2]));
                lemma_assign_satisfied(
                    region,
                    value.value,
                    zs@,
                    w,
                    kn,
                    m,
                    s,
                    true,
                );
            }
            (region, z)
        } else {
            proof {
                assert(floor == c_total);
                lemma_assign_satisfied(
                    region,
                    value.value,
                    zs@,
                    w,
                    k as nat,
                    m,
                    0nat,
                    false,
                );
            }
            (region, z)
        }
    }
}

/// The per-instance assignment protocol: the phases one gadget instance
/// passes through while a witness is written.
#[derive(Clone, Copy, Debug, PartialEq, Eq, Structural)]
pub enum AssignPhase {
    /// Nothing done yet.
    Idle,
    /// The range table has been loaded.
    TableLoaded,
    /// The witnessed value has been copied into the region.
    ValueCopiedIn,
    /// The interstitial running-sum elements have been written.
    RunningSumAssigned,
    /// The terminal element has been asserted equal to zero.
    FinalZeroAsserted,
    /// The final short chunk has been shifted and rechecked.
    PartialChunkAsserted,
    /// The instance is complete.
    Done,
}

impl AssignPhase {
    /// The one transition allowed from each phase: no step may be skipped
    /// or reordered, and the partial-chunk step is taken exactly when a
    /// partial chunk exists.  From `Done` there is no transition.
    pub fn next(self, has_partial: bool) -> (r: Option<AssignPhase>)
        ensures
            r == (match self {
                AssignPhase::Idle => Some(AssignPhase::TableLoaded),
                AssignPhase::TableLoaded => Some(AssignPhase::ValueCopiedIn),
                AssignPhase::ValueCopiedIn => Some(AssignPhase::RunningSumAssigned),
                AssignPhase::RunningSumAssigned => Some(AssignPhase::FinalZeroAsserted),
                AssignPhase::FinalZeroAsserted => if has_partial {
                    Some(AssignPhase::PartialChunkAsserted)
                } else {
                    Some(AssignPhase::Done)
                },
                AssignPhase::PartialChunkAsserted => Some(AssignPhase::Done),
                AssignPhase::Done => None::<AssignPhase>,
            }),
    {
        match self {
            AssignPhase::Idle => Some(AssignPhase::TableLoaded),
            AssignPhase::TableLoaded => Some(AssignPhase::ValueCopiedIn),
            AssignPhase::ValueCopiedIn => Some(AssignPhase::RunningSumAssigned),
            AssignPhase::RunningSumAssigned => Some(AssignPhase::FinalZeroAsserted),
            AssignPhase::FinalZeroAsserted => {
                if has_partial {
                    Some(AssignPhase::PartialChunkAsserted)
                } else {
                    Some(AssignPhase::Done)
                }
            },
            AssignPhase::PartialChunkAsserted => Some(AssignPhase::Done),
            AssignPhase::Done => None,
        }
    }
}

/// The weighted sum of an arbitrary chunk sequence: chunk `i` scaled by
/// `2^(iK)`.
spec fn weighted_sum(cs: Seq<int>, k: nat) -> int
    decreases cs.len(),
{
    if cs.len() == 0 {
        0
    } else {
        weighted_sum(cs.drop_last(), k) + cs.last() * pow2(((cs.len() - 1) as nat) * k)
    }
}

/// A sequence of `K`-bit chunks weighs less than `2^(len * K)`.
proof fn lemma_weighted_sum_bound(cs: Seq<int>, k: nat)
    requires
        k >= 1,
        forall|i: int| 0 <= i < cs.len() ==> 0 <= #[trigger] cs[i] < pow2(k),
    ensures
        0 <= weighted_sum(cs, k) < pow2(cs.len() * k),
    decreases cs.len(),
{
    if cs.len() == 0 {
        lemma2_to64();
        assert(0nat * k == 0) by (nonlinear_arith);
    } else {
        let l1 = (cs.len() - 1) as nat;
        lemma_weighted_sum_bound(cs.drop_last(), k);
        let p1 = pow2(l1 * k) as int;
        let pk = pow2(k) as int;
        lemma_pow2_pos(l1 * k);
        lemma_pow2_pos(k);
        assert(cs.len() * k == l1 * k + k) by {
            lemma_mul_is_distributive_sub_other_way(k as int, cs.len() as int, 1int);
        }
        lemma_pow2_adds(l1 * k, k);
        assert(pow2(cs.len() * k) as int == p1 * pk);
        // last * 2^(l1 k) <= (2^k - 1) * 2^(l1 k)
        lemma_mul_inequality(cs.last(), pk - 1, p1);
        lemma_mul_is_commutative(cs.last(), p1);
        lemma_mul_is_commutative(pk - 1, p1);
        lemma_mul_is_distributive_sub_other_way(p1, pk, 1int);
        assert((pk - 1) * p1 == pk * p1 - p1);
        lemma_mul_is_commutative(pk, p1);
        assert(cs.last() * p1 >= 0) by {
            vstd::arithmetic::mul::lemma_mul_nonnegative(cs.last(), p1);
        }
    }
}

/// Reading a chunk off two neighbouring cells and putting it back is the
/// identity, in the field.
proof fn lemma_link_from_expr(m: u64, k: nat, z_cur: Fe, z_next: Fe)
    requires
        valid_modulus(m),
        z_cur.m == m,
        z_cur.v < m,
    ensures
        (z_next.v * pow2(k) + chunk_expr_val(z_cur, z_next, k)) % (m as int) == z_cur.v,
{
    let mi = m as int;
    let b = (z_next.v * pow2(k)) as int;
    let e = (z_cur.v - b) % mi;
    lemma_mod_division_less_than_divisor(z_cur.v - b, mi);
    lemma_add_mod_noop(b, e, mi);
    lemma_mod_twice(z_cur.v - b, mi);
    assert((b + e) % mi == (b % mi + e % mi) % mi);
    lemma_add_mod_noop(b, z_cur.v - b, mi);
    lemma_small_mod(z_cur.v as nat, m as nat);
}

/// The telescoped form of an arbitrary satisfied chain: the cell on row `j`
/// scaled by `2^(jK)` plus the weighted sum of the chunks read off the rows
/// above it gives back the first cell, in the field.
proof fn lemma_chain_telescope(col: Seq<Fe>, cs: Seq<int>, k: nat, m: u64, j: nat)
    requires
        valid_modulus(m),
        k >= 1,
        j <= cs.len(),
        cs.len() < col.len(),
        col[0].v < m,
        forall|i: int|
            0 <= i < cs.len() ==> (col[i + 1].v * pow2(k) + #[trigger] cs[i]) % (m as int)
                == col[i].v,
    ensures
        (col[j as int].v * pow2(j * k) + weighted_sum(cs.take(j as int), k)) % (m as int)
            == col[0].v,
    decreases j,
{
    let mi = m as int;
    if j == 0 {
        lemma2_to64();
        assert(0nat * k == 0) by (nonlinear_arith);
        assert(cs.take(0) =~= Seq::<int>::empty());
        lemma_small_mod(col[0].v as nat, m as nat);
    } else {
        let j1 = (j - 1) as nat;
        lemma_chain_telescope(col, cs, k, m, j1);
        let cur = col[j as int];
        let prev = col[j1 as int];
        let c = cs[j1 as int];
        let pj1 = pow2(j1 * k) as int;
        let p = pow2(k) as int;
        assert((cur.v * p + c) % mi == prev.v);
        assert(j1 * k + k == j * k) by {
            lemma_mul_is_distributive_sub_other_way(k as int, j as int, 1int);
        }
        lemma_pow2_adds(j1 * k, k);
        let x = cur.v * p + c;
        assert(cur.v * (pj1 * p) == (cur.v * p) * pj1) by {
            lemma_mul_is_associative(cur.v as int, pj1, p);
            lemma_mul_is_commutative(pj1, p);
            lemma_mul_is_associative(cur.v as int, p, pj1);
        }
        lemma_mul_is_distributive_add_other_way(pj1, (cur.v * p) as int, c);
        assert(x * pj1 == (cur.v * p) * pj1 + c * pj1);
        let sum1 = weighted_sum(cs.take(j1 as int), k);
        assert((x * pj1 + sum1) % mi == (prev.v * pj1 + sum1) % mi) by {
            lemma_add_mod_noop((x * pj1) as int, sum1, mi);
            lemma_mul_mod_noop_general(x, pj1, mi);
            assert((x * pj1) % mi == ((x % mi) * pj1) % mi);
            assert(x % mi == prev.v);
            lemma_add_mod_noop((prev.v * pj1) as int, sum1, mi);
        }
        assert(cs.take(j as int).drop_last() =~= cs.take(j1 as int));
        assert(cs.take(j as int).last() == c);
        assert(weighted_sum(cs.take(j as int), k) == sum1 + c * pj1);
        assert(cur.v * pow2(j * k) + weighted_sum(cs.take(j as int), k) == x * pj1 + sum1);
        assert((cur.v * pow2(j * k) + weighted_sum(cs.take(j as int), k)) % mi == col[0].v);
    }
}

/// Soundness of the wired constraints, for any witness at all.
///
/// Nothing here assumes how the running-sum column was computed.  Whatever
/// a prover writes into it, if the region satisfies the gadget's
/// constraints, the full-chunk lookup selector is on for the first `c` rows
/// and the cell below them is zero, then the committed value on the first
/// row is below `2^(cK)` — provided the field is large enough to tell
/// `2^(cK)` values apart.  The bound is carried entirely by the algebra and
/// the table: each looked-up chunk expression is some table value below
/// `2^K`, and the telescoped recurrence reassembles the first cell from
/// those chunks alone.
pub proof fn lemma_constraints_sound(region: DecomposeRegion, k: nat, m: u64, c: nat)
    requires
        valid_modulus(m),
        1 <= k <= 63,
        region.wf(m),
        c < region.column@.len(),
        pow2(c * k) <= m,
        forall|o: int| 0 <= o < c ==> region.q_decompose@[o],
        region.column@[c as int].v == 0,
        spec_satisfied(region, table_rows(k), k, m),
    ensures
        region.column@[0].v < pow2(c * k),
{
    let mi = m as int;
    let col = region.column@;
    let rows = table_rows(k);
    lemma_table_membership(k);
    if c == 0 {
        lemma2_to64();
        assert(0nat * k == 0) by (nonlinear_arith);
    } else {
        assert(k <= c * k) by {
            lemma_mul_inequality(1int, c as int, k as int);
            lemma_mul_is_commutative(c as int, k as int);
        }
        if k < c * k {
            lemma_pow2_strictly_increases(k, c * k);
        }
        let cs = Seq::new(c, |i: int| chunk_expr_val(col[i], col[i + 1], k));
        // every looked-up chunk is some table value, and so below 2^K
        assert forall|i: int| 0 <= i < c implies 0 <= #[trigger] cs[i] < pow2(k) by {
            assert(lookup_ok_at(region, rows, k, m, i));
            assert(rows_have_fe(rows, chunk_expr_val(col[i], col[i + 1], k), m));
            let ri = choose|ri: int|
                0 <= ri < rows.len() && (#[trigger] rows[ri]).1 as int % mi == cs[i];
            let tag = rows[ri].0;
            let val = rows[ri].1;
            assert(table_rows(k).contains((tag, val)));
            assert((tag == 1 && val == 0) || (1 <= tag <= k && pow2((tag - 1) as nat) <= val
                < pow2(tag as nat)));
            lemma_pow2_pos(k);
            if !(tag == 1 && val == 0) {
                if (tag as nat) < k {
                    lemma_pow2_strictly_increases(tag as nat, k);
                }
            }
            assert(val < pow2(k));
            lemma_small_mod(val as nat, m as nat);
            assert(cs[i] == val as int);
        }
        // every looked-up row links its two cells through its chunk
        assert forall|i: int|
            0 <= i < cs.len() implies (col[i + 1].v * pow2(k) + #[trigger] cs[i]) % mi
            == col[i].v by {
            assert(lookup_ok_at(region, rows, k, m, i));
            lemma_link_from_expr(m, k, col[i], col[i + 1]);
        }
        lemma_chain_telescope(col, cs, k, m, c);
        assert(cs.take(c as int) =~= cs);
        lemma_weighted_sum_bound(cs, k);
        let ws = weighted_sum(cs, k);
        assert((col[c as int].v * pow2(c * k) + ws) % mi == col[0].v);
        assert(0int * pow2(c * k) == 0) by (nonlinear_arith);
        assert(ws % mi == col[0].v);
        lemma_small_mod(ws as nat, m as nat);
    }
}

} // verus!
