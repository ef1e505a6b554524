//! A concrete model of a finite-field element.
//!
//! An element carries its modulus, so one set of operations serves every
//! field the gadget may run over.  The modulus is required to be odd (and at
//! least 3), which is what the gadget needs: every power of two is then
//! invertible, and the running-sum division trick is sound.

use vstd::arithmetic::div_mod::{
    lemma_mod_add_multiples_vanish, lemma_mod_division_less_than_divisor,
    lemma_mul_mod_noop_general, lemma_small_mod,
};
use vstd::arithmetic::mul::lemma_mul_upper_bound;
use vstd::arithmetic::power2::pow2;
use vstd::prelude::*;

verus! {

/// A field element: a canonical residue `v` modulo an odd modulus `m`.
#[derive(Clone, Copy, Debug, PartialEq, Eq, Structural)]
pub struct Fe {
    /// The modulus of the field the element lives in.
    pub m: u64,
    /// The canonical value of the element, in `[0, m)`.
    pub v: u64,
}

/// A modulus the model accepts: odd and large enough that 0 and 1 differ.
pub open spec fn valid_modulus(m: u64) -> bool {
    m >= 3 && m % 2 == 1
}

impl Fe {
    /// Well-formed: valid modulus and canonical value.
    pub open spec fn wf(self) -> bool {
        valid_modulus(self.m) && self.v < self.m
    }

    /// Whether two elements live in the same field.
    pub open spec fn same_field(self, other: Fe) -> bool {
        self.m == other.m
    }

    /// Embed a plain integer into the field with modulus `m`.
    pub fn from_u64(m: u64, x: u64) -> (r: Fe)
        requires
            valid_modulus(m),
        ensures
            r.wf(),
            r.m == m,
            r.v == x % m,
    {
        proof {
            lemma_mod_division_less_than_divisor(x as int, m as int);
        }
        Fe { m, v: x % m }
    }

    /// The additive identity of the field with modulus `m`.
    pub fn zero(m: u64) -> (r: Fe)
        requires
            valid_modulus(m),
        ensures
            r.wf(),
            r.m == m,
            r.v == 0,
    {
        Fe { m, v: 0 }
    }

    /// The multiplicative identity of the field with modulus `m`.
    pub fn one(m: u64) -> (r: Fe)
        requires
            valid_modulus(m),
        ensures
            r.wf(),
            r.m == m,
            r.v == 1,
    {
        Fe { m, v: 1 }
    }

    /// Field addition.
    pub fn plus(self, rhs: Fe) -> (r: Fe)
        requires
            self.wf(),
            rhs.wf(),
            self.same_field(rhs),
        ensures
            r.wf(),
            r.m == self.m,
            r.v == (self.v + rhs.v) % (self.m as int),
    {
        let m = self.m;
        let s: u128 = (self.v as u128 + rhs.v as u128) % (m as u128);
        proof {
            lemma_mod_division_less_than_divisor((self.v + rhs.v) as int, m as int);
        }
        Fe { m, v: s as u64 }
    }

    /// Field subtraction.
    pub fn minus(self, rhs: Fe) -> (r: Fe)
        requires
            self.wf(),
            rhs.wf(),
            self.same_field(rhs),
        ensures
            r.wf(),
            r.m == self.m,
            r.v == (self.v - rhs.v) % (self.m as int),
    {
        let m = self.m;
        let s: u128 = (self.v as u128 + m as u128 - rhs.v as u128) % (m as u128);
        proof {
            let a = self.v as int;
            let b = rhs.v as int;
            lemma_mod_division_less_than_divisor(a + m - b, m as int);
            // (a + m - b) % m == (a - b) % m: the extra m vanishes.
            lemma_mod_add_multiples_vanish(a - b, m as int);
        }
        Fe { m, v: s as u64 }
    }

    /// Field multiplication.
    pub fn times(self, rhs: Fe) -> (r: Fe)
        requires
            self.wf(),
            rhs.wf(),
            self.same_field(rhs),
        ensures
            r.wf(),
            r.m == self.m,
            r.v == (self.v * rhs.v) % (self.m as int),
    {
        let m = self.m;
        proof {
            lemma_mul_upper_bound(self.v as int, u64::MAX as int, rhs.v as int, u64::MAX as int);
        }
        let s: u128 = (self.v as u128 * rhs.v as u128) % (m as u128);
        proof {
            lemma_mod_division_less_than_divisor((self.v * rhs.v) as int, m as int);
        }
        Fe { m, v: s as u64 }
    }

    /// The multiplicative inverse of `2^j` in the field with modulus `m`.
    ///
    /// For an odd modulus every power of two is invertible, and the inverse
    /// is computed without any primality assumption: the inverse of 2 is
    /// `(m + 1) / 2`, and the inverse of `2^j` is its `j`-th power.
    pub fn inv_two_pow(m: u64, j: usize) -> (r: Fe)
        requires
            valid_modulus(m),
        ensures
            r.wf(),
            r.m == m,
            (r.v * pow2(j as nat)) % (m as int) == 1,
    {
        let inv2: u64 = m / 2 + 1;
        proof {
            lemma_small_mod(1nat, m as nat);
            assert(pow2(0) == 1) by {
                vstd::arithmetic::power2::lemma2_to64();
            }
        }
        let mut t: u64 = 1;
        let mut i: usize = 0;
        while i < j
            invariant
                valid_modulus(m),
                inv2 == m / 2 + 1,
                i <= j,
                t < m,
                (t * pow2(i as nat)) % (m as int) == 1,
            decreases j - i,
        {
            proof {
                lemma_mul_upper_bound(t as int, u64::MAX as int, inv2 as int, u64::MAX as int);
            }
            let t_next: u64 = ((t as u128 * inv2 as u128) % (m as u128)) as u64;
            proof {
                lemma_mod_division_less_than_divisor((t * inv2) as int, m as int);
                lemma_inv2_step(m, t, i as nat);
            }
            t = t_next;
            i = i + 1;
        }
        Fe { m, v: t }
    }
}

/// One squaring step of the inverse-of-two chain: if `t * 2^i == 1 (mod m)`,
/// then `(t * (m/2 + 1)) * 2^(i+1) == 1 (mod m)` for odd `m`.
proof fn lemma_inv2_step(m: u64, t: u64, i: nat)
    requires
        valid_modulus(m),
        (t * pow2(i)) % (m as int) == 1,
    ensures
        (((t * (m / 2 + 1)) % (m as int)) * pow2(i + 1)) % (m as int) == 1,
{
    let mi = m as int;
    let inv2 = m / 2 + 1;
    let p = pow2(i) as int;
    vstd::arithmetic::power2::lemma_pow2_unfold(i + 1);
    assert(pow2(i + 1) == 2 * pow2(i));
    // (m / 2 + 1) * 2 == m + 1 for odd m.
    assert(inv2 * 2 == mi + 1);
    // ((t * inv2) % m) * (2 * p) % m == (t * inv2 * 2 * p) % m
    lemma_mul_mod_noop_general((t * inv2) as int, 2 * p, mi);
    // rearrange t * inv2 * (2 * p) == (inv2 * 2) * (t * p)
    assert((t * inv2) * (2 * p) == (inv2 * 2) * (t * p)) by (nonlinear_arith);
    // ((m + 1) * (t * p)) % m == ((m + 1) % m * (t * p)) % m == (t * p) % m
    lemma_mul_mod_noop_general(mi + 1, (t * p) as int, mi);
    lemma_mod_add_multiples_vanish(1, mi);
    lemma_small_mod(1nat, m as nat);
    lemma_mul_mod_noop_general(1, (t * p) as int, mi);
    assert((((t * inv2) % mi) * (2 * p)) % mi == (t * p) % mi);
}

} // verus!
