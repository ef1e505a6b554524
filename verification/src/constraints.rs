//! The constraints the gadget wires into the host system, as checkable
//! semantics.
//!
//! Three constraint families guard a decomposition region:
//! - on every row, a lookup whose input is `q_decompose * (z_cur - z_next *
//!   2^K) + (1 - q_decompose) * 0`, targeting the table's value column;
//! - on every row, the partial-chunk gate `q_partial_check * (final_chunk *
//!   2^K * inv_two_pow_s - shifted)` and a second lookup of `q_partial_check
//!   * shifted + (1 - q_partial_check) * 0`;
//! - every equality-to-constant and equality-copy assertion.
//!
//! A row whose selector is off feeds the sentinel value 0 into the lookups,
//! which the sentinel row of the table absorbs.

use crate::bits::pow2;
use crate::field::{valid_modulus, Fe};
use crate::region::DecomposeRegion;
use vstd::arithmetic::div_mod::{lemma_mul_mod_noop_general, lemma_sub_mod_noop_right};
use vstd::bits::{lemma_u64_pow2_no_overflow, lemma_u64_shl_is_mul};
use vstd::prelude::*;

verus! {

/// The value of the chunk expression `z_cur - z_next * 2^K` in the field.
pub open spec fn chunk_expr_val(z_cur: Fe, z_next: Fe, k: nat) -> int {
    (z_cur.v - z_next.v * pow2(k)) % (z_cur.m as int)
}

/// Whether some table row's value column holds `x`, read in the field with
/// modulus `m`.
pub open spec fn rows_have_fe(rows: Seq<(u64, u64)>, x: int, m: u64) -> bool {
    exists|i: int| 0 <= i < rows.len() && (#[trigger] rows[i]).1 as int % (m as int) == x
}

/// The full-chunk lookup at row `o`: with the selector on, the chunk derived
/// from two neighbouring running-sum cells must be in the table; with it
/// off, the sentinel 0 must be.
pub open spec fn lookup_ok_at(
    r: DecomposeRegion,
    rows: Seq<(u64, u64)>,
    k: nat,
    m: u64,
    o: int,
) -> bool {
    if r.q_decompose@[o] {
        &&& o + 1 < r.column@.len()
        &&& rows_have_fe(rows, chunk_expr_val(r.column@[o], r.column@[o + 1], k), m)
    } else {
        rows_have_fe(rows, 0, m)
    }
}

/// The partial-chunk constraints at row `o`: with the selector on, a
/// polynomial identity recomputes the shifted chunk out of the final
/// recurrence step and the
/// witnessed `2^-s` constant, and the shifted chunk must be in the table;
/// with it off, the sentinel 0 must be.
pub open spec fn partial_ok_at(
    r: DecomposeRegion,
    rows: Seq<(u64, u64)>,
    k: nat,
    m: u64,
    o: int,
) -> bool {
    if r.q_partial_check@[o] {
        &&& 1 <= o
        &&& o + 2 < r.column@.len()
        &&& (chunk_expr_val(r.column@[o - 1], r.column@[o], k) * pow2(k) * r.column@[o + 2].v) % (
        m as int) == r.column@[o + 1].v
        &&& rows_have_fe(rows, r.column@[o + 1].v as int, m)
    } else {
        rows_have_fe(rows, 0, m)
    }
}

/// Every equality-to-constant assertion holds.
pub open spec fn constants_ok(r: DecomposeRegion) -> bool {
    forall|i: int|
        0 <= i < r.constants@.len() ==> r.column@[(#[trigger] r.constants@[i]).0 as int].v
            == r.constants@[i].1.v
}

/// Every equality-copy assertion holds.
pub open spec fn copies_ok(r: DecomposeRegion) -> bool {
    forall|i: int|
        0 <= i < r.copies@.len() ==> r.column@[(#[trigger] r.copies@[i]).1 as int].v
            == r.copies@[i].0.v
}

/// The external checker's verdict on one decomposition region: all gate,
/// lookup and equality constraints hold against the given table rows.
pub open spec fn spec_satisfied(
    r: DecomposeRegion,
    rows: Seq<(u64, u64)>,
    k: nat,
    m: u64,
) -> bool {
    &&& forall|o: int| 0 <= o < r.column@.len() ==> lookup_ok_at(r, rows, k, m, o)
    &&& forall|o: int| 0 <= o < r.column@.len() ==> partial_ok_at(r, rows, k, m, o)
    &&& constants_ok(r)
    &&& copies_ok(r)
}

/// The chunk expression, evaluated in the field.
pub fn chunk_expr(z_cur: Fe, z_next: Fe, k: usize) -> (c: Fe)
    requires
        z_cur.wf(),
        z_next.wf(),
        z_cur.same_field(z_next),
        k <= 63,
    ensures
        c.wf(),
        c.m == z_cur.m,
        c.v == chunk_expr_val(z_cur, z_next, k as nat),
{
    let m = z_cur.m;
    proof {
        lemma_u64_pow2_no_overflow(k as nat);
        lemma_u64_shl_is_mul(1u64, k as u64);
    }
    let two_k = Fe::from_u64(m, 1u64 << k);
    let prod = z_next.times(two_k);
    proof {
        lemma_mul_mod_noop_general(z_next.v as int, pow2(k as nat) as int, m as int);
        assert(prod.v == (z_next.v * pow2(k as nat)) % (m as int));
        lemma_sub_mod_noop_right(z_cur.v as int, (z_next.v * pow2(k as nat)) as int, m as int);
    }
    z_cur.minus(prod)
}

/// Whether some table row's value column holds `x`, read in the field.
fn rows_contain_value(rows: &Vec<(u64, u64)>, m: u64, x: u64) -> (b: bool)
    requires
        valid_modulus(m),
    ensures
        b == rows_have_fe(rows@, x as int, m),
{
    let n = rows.len();
    let mut i: usize = 0;
    while i < n
        invariant
            valid_modulus(m),
            n == rows@.len(),
            i <= n,
            forall|j: int| 0 <= j < i ==> (#[trigger] rows@[j]).1 as int % (m as int) != x,
        decreases n - i,
    {
        if rows[i].1 % m == x {
            return true;
        }
        i = i + 1;
    }
    false
}

/// Check every full-chunk lookup row.
fn all_lookups_ok(region: &DecomposeRegion, rows: &Vec<(u64, u64)>, k: usize, m: u64) -> (b: bool)
    requires
        region.wf(m),
        1 <= k <= 63,
    ensures
        b == forall|o: int|
            0 <= o < region.column@.len() ==> lookup_ok_at(*region, rows@, k as nat, m, o),
{
    let n = region.column.len();
    let mut o: usize = 0;
    while o < n
        invariant
            region.wf(m),
            1 <= k <= 63,
            n == region.column@.len(),
            o <= n,
            forall|j: int| 0 <= j < o ==> lookup_ok_at(*region, rows@, k as nat, m, j),
        decreases n - o,
    {
        if region.q_decompose[o] {
            if o + 1 >= n {
                assert(!lookup_ok_at(*region, rows@, k as nat, m, o as int));
                return false;
            }
            let c = chunk_expr(region.column[o], region.column[o + 1], k);
            if !rows_contain_value(rows, m, c.v) {
                assert(!lookup_ok_at(*region, rows@, k as nat, m, o as int));
                return false;
            }
        } else {
            if !rows_contain_value(rows, m, 0) {
                assert(!lookup_ok_at(*region, rows@, k as nat, m, o as int));
                return false;
            }
        }
        assert(lookup_ok_at(*region, rows@, k as nat, m, o as int));
        o = o + 1;
    }
    true
}

/// Check every partial-chunk gate and lookup row.
fn all_partials_ok(region: &DecomposeRegion, rows: &Vec<(u64, u64)>, k: usize, m: u64) -> (b: bool)
    requires
        region.wf(m),
        1 <= k <= 63,
    ensures
        b == forall|o: int|
            0 <= o < region.column@.len() ==> partial_ok_at(*region, rows@, k as nat, m, o),
{
    let n = region.column.len();
    let mut o: usize = 0;
    while o < n
        invariant
            region.wf(m),
            1 <= k <= 63,
            n == region.column@.len(),
            o <= n,
            forall|j: int| 0 <= j < o ==> partial_ok_at(*region, rows@, k as nat, m, j),
        decreases n - o,
    {
        if region.q_partial_check[o] {
            if o == 0 || n - o <= 2 {
                assert(!partial_ok_at(*region, rows@, k as nat, m, o as int));
                return false;
            }
            let fc = chunk_expr(region.column[o - 1], region.column[o], k);
            proof {
                lemma_u64_pow2_no_overflow(k as nat);
                lemma_u64_shl_is_mul(1u64, k as u64);
            }
            let t1 = fc.times(Fe::from_u64(m, 1u64 << k));
            let lhs = t1.times(region.column[o + 2]);
            proof {
                let fcv = fc.v as int;
                let p = pow2(k as nat) as int;
                let inv = region.column@[o + 2].v as int;
                let mi = m as int;
                lemma_mul_mod_noop_general(fcv, p, mi);
                lemma_mul_mod_noop_general((fcv * p) as int, inv, mi);
                assert(lhs.v == (fcv * p * inv) % mi);
            }
            if lhs.v != region.column[o + 1].v {
                assert(!partial_ok_at(*region, rows@, k as nat, m, o as int));
                return false;
            }
            if !rows_contain_value(rows, m, region.column[o + 1].v) {
                assert(!partial_ok_at(*region, rows@, k as nat, m, o as int));
                return false;
            }
        } else {
            if !rows_contain_value(rows, m, 0) {
                assert(!partial_ok_at(*region, rows@, k as nat, m, o as int));
                return false;
            }
        }
        assert(partial_ok_at(*region, rows@, k as nat, m, o as int));
        o = o + 1;
    }
    true
}

/// Check every equality-to-constant assertion.
fn all_constants_ok(region: &DecomposeRegion, m: u64) -> (b: bool)
    requires
        region.wf(m),
    ensures
        b == constants_ok(*region),
{
    let n = region.constants.len();
    let mut i: usize = 0;
    while i < n
        invariant
            region.wf(m),
            n == region.constants@.len(),
            i <= n,
            forall|j: int|
                0 <= j < i ==> region.column@[(#[trigger] region.constants@[j]).0 as int].v
                    == region.constants@[j].1.v,
        decreases n - i,
    {
        let (offset, c) = region.constants[i];
        if region.column[offset].v != c.v {
            return false;
        }
        i = i + 1;
    }
    true
}

/// Check every equality-copy assertion.
fn all_copies_ok(region: &DecomposeRegion, m: u64) -> (b: bool)
    requires
        region.wf(m),
    ensures
        b == copies_ok(*region),
{
    let n = region.copies.len();
    let mut i: usize = 0;
    while i < n
        invariant
            region.wf(m),
            n == region.copies@.len(),
            i <= n,
            forall|j: int|
                0 <= j < i ==> region.column@[(#[trigger] region.copies@[j]).1 as int].v
                    == region.copies@[j].0.v,
        decreases n - i,
    {
        let (v, offset) = region.copies[i];
        if region.column[offset].v != v.v {
            return false;
        }
        i = i + 1;
    }
    true
}

/// The external checker, specialised to this gadget's constraints: whether a
/// decomposition region satisfies every gate, lookup and equality constraint
/// against the given table rows.
pub fn is_satisfied(region: &DecomposeRegion, rows: &Vec<(u64, u64)>, k: usize, m: u64) -> (b:
    bool)
    requires
        region.wf(m),
        1 <= k <= 63,
    ensures
        b == spec_satisfied(*region, rows@, k as nat, m),
{
    let lookups = all_lookups_ok(region, rows, k, m);
    let partials = all_partials_ok(region, rows, k, m);
    let consts = all_constants_ok(region, m);
    let copies = all_copies_ok(region, m);
    lookups && partials && consts && copies
}

} // verus!
