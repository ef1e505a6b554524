//! The tagged range-check lookup table.
//!
//! The table holds one row per value representable in `1..=K` bits: the row
//! `(tag, v)` says that `v` is a `tag`-bit value, with `2^(tag-1) <= v <
//! 2^tag`.  A sentinel row `(1, 0)` comes first, so that rows whose lookup
//! selector is off can target a harmless default.  The table has exactly
//! `2^K` rows.

use crate::bits::{bit_len, lemma_bit_len_at_most, lemma_bit_len_bounds, pow2};
use vstd::arithmetic::power2::{
    lemma2_to64, lemma_pow2_pos, lemma_pow2_strictly_increases, lemma_pow2_unfold,
};
use vstd::bits::lemma_u64_shl_is_mul;
use vstd::prelude::*;

verus! {

/// A static parameter mismatch found once, at configure time.
#[derive(Clone, Copy, Debug, PartialEq, Eq, Structural)]
pub struct ConfigurationError;

/// The rows tagged `tag`: every value of exactly `tag` bits, in order.
pub open spec fn tag_rows(tag: nat) -> Seq<(u64, u64)>
    recommends
        1 <= tag <= 63,
{
    Seq::new(pow2((tag - 1) as nat), |j: int| ((tag as u64), (pow2((tag - 1) as nat) + j) as u64))
}

/// The table rows for widths up to `k`, sentinel first.
pub open spec fn rows_up_to(k: nat) -> Seq<(u64, u64)>
    recommends
        k <= 63,
    decreases k,
{
    if k == 0 {
        seq![(1u64, 0u64)]
    } else {
        rows_up_to((k - 1) as nat) + tag_rows(k)
    }
}

/// The full row sequence of the range table of chunk width `k`.
pub open spec fn table_rows(k: nat) -> Seq<(u64, u64)> {
    rows_up_to(k)
}

/// Whether some row of the table carries `val` in its value column.
pub open spec fn rows_have_value(rows: Seq<(u64, u64)>, val: u64) -> bool {
    exists|i: int| 0 <= i < rows.len() && rows[i].1 == val
}

/// The table of width `k` has exactly `2^k` rows.
pub proof fn lemma_table_len(k: nat)
    requires
        k <= 63,
    ensures
        table_rows(k).len() == pow2(k),
    decreases k,
{
    if k == 0 {
        lemma2_to64();
    } else {
        lemma_table_len((k - 1) as nat);
        lemma_pow2_unfold(k);
    }
}

/// The rows of the table of width `k` are the sentinel `(1, 0)` and, for
/// every tag in `1..=k`, exactly the values of that bit length: membership
/// holds in both directions.
pub proof fn lemma_table_membership(k: nat)
    requires
        k <= 63,
    ensures
        table_rows(k).contains((1u64, 0u64)),
        forall|tag: u64, val: u64|
            1 <= tag <= k && pow2((tag - 1) as nat) <= val < pow2(tag as nat)
                ==> #[trigger] table_rows(k).contains((tag, val)),
        forall|tag: u64, val: u64|
            #[trigger] table_rows(k).contains((tag, val)) ==> ((tag == 1 && val == 0) || (1 <= tag
                <= k && pow2((tag - 1) as nat) <= val < pow2(tag as nat))),
    decreases k,
{
    if k == 0 {
        assert(table_rows(0)[0] == (1u64, 0u64));
    } else {
        let k1 = (k - 1) as nat;
        let cur = tag_rows(k);
        lemma_table_membership(k1);
        lemma_pow2_strictly_increases(k1, k);
        lemma_pow2_unfold(k);
        lemma_pow2_pos(k1);
        assert(table_rows(k) == table_rows(k1) + cur);

        // The sentinel survives concatenation.
        assert(table_rows(k1).contains((1u64, 0u64)));
        let s = choose|i: int|
            0 <= i < table_rows(k1).len() && table_rows(k1)[i] == (1u64, 0u64);
        assert(table_rows(k)[s] == (1u64, 0u64));
        assert(table_rows(k).contains((1u64, 0u64)));

        // Forward: every in-range pair has a row.
        assert forall|tag: u64, val: u64|
            1 <= tag <= k && pow2((tag - 1) as nat) <= val < pow2(tag as nat)
                implies #[trigger] table_rows(k).contains((tag, val)) by {
            if tag <= k - 1 {
                assert(table_rows(k1).contains((tag, val)));
                let i = choose|i: int|
                    0 <= i < table_rows(k1).len() && table_rows(k1)[i] == (tag, val);
                assert(table_rows(k)[i] == (tag, val));
            } else {
                let j = val - pow2(k1);
                assert(cur[j as int] == (tag, val));
                assert(table_rows(k)[table_rows(k1).len() + j] == (tag, val));
            }
        }
        // Backward: every row is the sentinel or an in-range pair.
        assert forall|tag: u64, val: u64| #[trigger]
            table_rows(k).contains((tag, val)) implies ((tag == 1 && val == 0) || (1 <= tag <= k
            && pow2((tag - 1) as nat) <= val < pow2(tag as nat))) by {
            let i = choose|i: int| 0 <= i < table_rows(k).len() && table_rows(k)[i] == (tag, val);
            if i < table_rows(k1).len() {
                assert(table_rows(k1)[i] == (tag, val));
                assert(table_rows(k1).contains((tag, val)));
            } else {
                lemma_pow2_strictly_increases(k, 64);
                vstd::arithmetic::power2::lemma2_to64_rest();
                let j = i - table_rows(k1).len();
                assert(cur[j] == (tag, val));
                assert(0 <= j < pow2(k1));
                assert(pow2(k1) + j < pow2(k));
                assert(tag == k as u64);
                assert(val == pow2(k1) + j);
            }
        }
    }
}

/// Every value below `2^k` appears in the value column of the table: either
/// as the sentinel 0, or under the tag of its exact bit length.
pub proof fn lemma_table_covers(k: nat, val: u64)
    requires
        1 <= k <= 63,
        val < pow2(k),
    ensures
        rows_have_value(table_rows(k), val),
{
    lemma_table_membership(k);
    if val == 0 {
        let i = choose|i: int|
            0 <= i < table_rows(k).len() && table_rows(k)[i] == (1u64, 0u64);
        assert(table_rows(k)[i].1 == val);
    } else {
        lemma_bit_len_bounds(val as nat);
        lemma_bit_len_at_most(val as nat, k);
        let tag = bit_len(val as nat) as u64;
        assert(table_rows(k).contains((tag, val)));
        let i = choose|i: int| 0 <= i < table_rows(k).len() && table_rows(k)[i] == (tag, val);
        assert(table_rows(k)[i].1 == val);
    }
}

/// The configuration of the range table: the chunk width it was built for.
///
/// The host system's two lookup columns are an external capability; what the
/// gadget owns is the width and the rows it loads.
#[derive(Clone, Copy, Debug, PartialEq, Eq, Structural)]
pub struct RangeTableConfig {
    /// The chunk width `K`: the table holds every value of `1..=K` bits.
    pub num_bits: usize,
}

impl RangeTableConfig {
    /// Check the claimed table size against the chunk width, once, at
    /// configure time.  The claimed size must be exactly `2^K`.
    pub fn configure(num_bits: usize, claimed_range: u64) -> (r: Result<
        RangeTableConfig,
        ConfigurationError,
    >)
        ensures
            r is Ok <==> claimed_range == pow2(num_bits as nat),
            r is Ok ==> r->Ok_0.num_bits == num_bits && num_bits <= 63,
    {
        if num_bits >= 64 {
            proof {
                if num_bits > 64 {
                    lemma_pow2_strictly_increases(64, num_bits as nat);
                }
                vstd::arithmetic::power2::lemma2_to64_rest();
            }
            Err(ConfigurationError)
        } else {
            proof {
                vstd::bits::lemma_u64_pow2_no_overflow(num_bits as nat);
                lemma_u64_shl_is_mul(1u64, num_bits as u64);
            }
            if (1u64 << num_bits) == claimed_range {
                Ok(RangeTableConfig { num_bits })
            } else {
                Err(ConfigurationError)
            }
        }
    }

    /// Emit the rows of the table, sentinel `(1, 0)` first, then for every
    /// bit length `1..=K` each value of that length in increasing order.
    /// The result is a pure function of the width: loading is deterministic
    /// and idempotent.
    pub fn load(&self) -> (rows: Vec<(u64, u64)>)
        requires
            self.num_bits <= 63,
        ensures
            rows@ == table_rows(self.num_bits as nat),
    {
        let k = self.num_bits;
        let mut rows: Vec<(u64, u64)> = Vec::new();
        rows.push((1, 0));
        proof {
            assert(rows@ =~= rows_up_to(0));
        }
        let mut tag: usize = 1;
        while tag <= k
            invariant
                1 <= tag <= k + 1,
                k <= 63,
                rows@ == rows_up_to((tag - 1) as nat),
            decreases k + 1 - tag,
        {
            proof {
                vstd::bits::lemma_u64_pow2_no_overflow((tag - 1) as nat);
                vstd::bits::lemma_u64_pow2_no_overflow(tag as nat);
                lemma_u64_shl_is_mul(1u64, (tag - 1) as u64);
                lemma_u64_shl_is_mul(1u64, tag as u64);
                lemma_pow2_unfold(tag as nat);
            }
            let lo = 1u64 << (tag - 1);
            let hi = 1u64 << tag;
            let mut val = lo;
            while val < hi
                invariant
                    1 <= tag <= k <= 63,
                    lo == pow2((tag - 1) as nat),
                    hi == pow2(tag as nat),
                    hi == 2 * lo,
                    lo <= val <= hi,
                    rows@ == rows_up_to((tag - 1) as nat) + tag_rows(tag as nat).take(
                        val - lo as int,
                    ),
                decreases hi - val,
            {
                rows.push((tag as u64, val));
                proof {
                    assert(tag_rows(tag as nat)[(val - lo) as int] == ((tag as u64), val));
                    assert(rows@ =~= rows_up_to((tag - 1) as nat) + tag_rows(tag as nat).take(
                        val + 1 - lo as int,
                    ));
                }
                val = val + 1;
            }
            proof {
                assert(tag_rows(tag as nat).take(hi - lo as int) =~= tag_rows(tag as nat));
                assert(rows@ =~= rows_up_to(tag as nat));
            }
            tag = tag + 1;
        }
        rows
    }
}

/// Loading the table twice for one width yields identical row sequences:
/// the rows are a function of the width alone.
pub proof fn lemma_load_deterministic(rows1: Seq<(u64, u64)>, rows2: Seq<(u64, u64)>, k: nat)
    requires
        rows1 == table_rows(k),
        rows2 == table_rows(k),
    ensures
        rows1 == rows2,
{
}

} // verus!
