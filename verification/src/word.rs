//! Verified bit operations on single 64-bit words: bit tests, popcounts over
//! prefixes, locating the occurrence of a given rank inside a word, and the
//! masking steps the iterator uses.
use vstd::prelude::*;
use vstd::arithmetic::power2::pow2;
use vstd::arithmetic::power2::lemma2_to64;
use vstd::bits::lemma_u64_shr_is_div;
use vstd::bits::lemma_u64_low_bits_mask_is_mod;
use vstd::bits::lemma_low_bits_mask_values;
use crate::model::u64_bit;
use crate::model::wseq;
use crate::model::count_bits;

verus! {

/// Bit `j` of `v`, as the machine reads it.
pub proof fn lemma_bit_is_shift(v: u64, j: u64)
    requires
        j < 64,
    ensures
        u64_bit(v, j as int) == (((v >> j) & 1) == 1),
{
    lemma_u64_shr_is_div(v, j);
    lemma_low_bits_mask_values();
    lemma_u64_low_bits_mask_is_mod(v >> j, 1);
    lemma2_to64();
    assert((v >> j) as int == v as int / pow2(j as nat) as int);
    assert((v >> j) & 1 == (v >> j) % 2);
}

/// Test one bit of a word.
pub fn get_bit(v: u64, j: u64) -> (b: bool)
    requires
        j < 64,
    ensures
        b == u64_bit(v, j as int),
{
    proof {
        lemma_bit_is_shift(v, j);
    }
    ((v >> j) & 1) == 1
}

/// Setting one clear bit leaves every other bit alone.
pub proof fn lemma_set_bit(v: u64, i: u64)
    requires
        i < 64,
    ensures
        forall|t: u64| t < 64 ==> #[trigger] u64_bit(v | (1u64 << i), t as int) == (t == i
            || u64_bit(v, t as int)),
{
    assert forall|t: u64| t < 64 implies #[trigger] u64_bit(v | (1u64 << i), t as int) == (t == i
        || u64_bit(v, t as int)) by {
        lemma_bit_is_shift(v, t);
        lemma_bit_is_shift(v | (1u64 << i), t);
        assert(((v | (1u64 << i)) >> t) & 1 == if t == i {
            1u64
        } else {
            (v >> t) & 1
        }) by (bit_vector)
            requires
                t < 64u64 && i < 64u64,
        ;
    }
}

/// The zero word has no set bits.
pub proof fn lemma_zero_word()
    ensures
        forall|t: int| 0 <= t < 64 ==> !#[trigger] u64_bit(0u64, t),
{
    assert forall|t: int| 0 <= t < 64 implies !#[trigger] u64_bit(0u64, t) by {
        vstd::arithmetic::power2::lemma_pow2_pos(t as nat);
    }
}

/// Count occurrences of `b` among the low `t` bits of `v`.
pub fn count_in_word(v: u64, t: u64, b: bool) -> (r: u64)
    requires
        t <= 64,
    ensures
        r as int == count_bits(wseq(v), t as int, b),
{
    let mut cnt: u64 = 0;
    let mut j: u64 = 0;
    while j < t
        invariant
            j <= t <= 64,
            cnt as int == count_bits(wseq(v), j as int, b),
            cnt <= j,
        decreases t - j,
    {
        if get_bit(v, j) == b {
            cnt = cnt + 1;
        }
        j = j + 1;
    }
    cnt
}

/// Position of the occurrence of rank `k` of bit value `b` among the low
/// `limit` bits of `v`.
pub fn select_in_word(v: u64, k: u64, b: bool, limit: u64) -> (r: u64)
    requires
        limit <= 64,
        (k as int) < count_bits(wseq(v), limit as int, b),
    ensures
        r < limit,
        u64_bit(v, r as int) == b,
        count_bits(wseq(v), r as int, b) == k as int,
{
    let mut cnt: u64 = 0;
    let mut j: u64 = 0;
    while j < limit
        invariant
            j <= limit <= 64,
            cnt as int == count_bits(wseq(v), j as int, b),
            cnt <= k,
            (k as int) < count_bits(wseq(v), limit as int, b),
        decreases limit - j,
    {
        if get_bit(v, j) == b {
            if cnt == k {
                return j;
            }
            cnt = cnt + 1;
        }
        proof {
            crate::model::lemma_count_monotonic(wseq(v), j as int + 1, limit as int, b);
        }
        j = j + 1;
    }
    proof {
        assert(false);
    }
    0
}

} // verus!
