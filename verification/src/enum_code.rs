//! The enumerative (combinatorial-number-system) coder: a 64-bit word of
//! popcount class `c` is stored as its rank among all 64-bit words of that
//! popcount, in increasing numeric order.
use vstd::prelude::*;
use vstd::arithmetic::power2::pow2;
use crate::model::count_bits;
use crate::model::wseq;
use crate::model::u64_bit;
use crate::binomial::binom;
use crate::binomial::Tables;
use crate::binomial::lemma_binom_nonneg;
use crate::binomial::lemma_binom_mono_n;
use crate::binomial::lemma_binom_high;
use crate::word::get_bit;
use crate::word::lemma_set_bit;

verus! {

/// The offset code of the low `i` bits of `q`: the rank of that bit pattern
/// among all patterns of `i` bits with the same number of ones.
pub open spec fn enc_seq(q: Seq<bool>, i: int) -> int
    decreases i,
{
    if i <= 0 {
        0
    } else {
        enc_seq(q, i - 1) + if q[i - 1] {
            binom(i - 1, count_bits(q, i, true))
        } else {
            0int
        }
    }
}

/// The inverse mapping: the `i`-bit pattern with `k` ones whose rank is
/// `code`, produced greedily from the highest position down.
pub open spec fn dec_seq(code: int, i: int, k: int) -> Seq<bool>
    decreases i,
{
    if i <= 0 {
        Seq::empty()
    } else if k > 0 && code >= binom(i - 1, k) {
        dec_seq(code - binom(i - 1, k), i - 1, k - 1).push(true)
    } else {
        dec_seq(code, i - 1, k).push(false)
    }
}

pub proof fn lemma_enc_nonneg(q: Seq<bool>, i: int)
    ensures
        enc_seq(q, i) >= 0,
    decreases i,
{
    if i > 0 {
        lemma_enc_nonneg(q, i - 1);
        if q[i - 1] {
            lemma_binom_nonneg(i - 1, count_bits(q, i, true));
        }
    }
}

/// The code of an `i`-bit pattern of class `k` lies below `C(i, k)`.
pub proof fn lemma_enc_bound(q: Seq<bool>, i: int)
    requires
        0 <= i,
    ensures
        enc_seq(q, i) < binom(i, count_bits(q, i, true)),
    decreases i,
{
    if i == 0 {
        assert(binom(0, 0) == 1);
    } else {
        lemma_enc_bound(q, i - 1);
        let c = count_bits(q, i, true);
        if q[i - 1] {
            assert(count_bits(q, i - 1, true) == c - 1);
            assert(binom(i, c) == binom(i - 1, c - 1) + binom(i - 1, c));
        } else {
            assert(count_bits(q, i - 1, true) == c);
            lemma_binom_mono_n(i - 1, c);
        }
    }
}

/// Decoding inverts encoding: the coder is a bijection between words of
/// class `k` and codes below `C(i, k)`.
pub proof fn lemma_roundtrip(q: Seq<bool>, i: int)
    requires
        0 <= i,
    ensures
        dec_seq(enc_seq(q, i), i, count_bits(q, i, true)) =~= Seq::new(i as nat, |j: int| q[j]),
    decreases i,
{
    if i > 0 {
        lemma_roundtrip(q, i - 1);
        let c = count_bits(q, i, true);
        let code = enc_seq(q, i);
        if q[i - 1] {
            lemma_enc_nonneg(q, i - 1);
            crate::model::lemma_count_nonneg(q, i - 1, true);
            assert(c == count_bits(q, i - 1, true) + 1);
            assert(code == enc_seq(q, i - 1) + binom(i - 1, c));
            assert(code >= binom(i - 1, c));
            assert(c > 0);
            assert(dec_seq(code, i, c) == dec_seq(enc_seq(q, i - 1), i - 1, c - 1).push(true));
        } else {
            lemma_enc_bound(q, i - 1);
            assert(c == count_bits(q, i - 1, true));
            assert(code == enc_seq(q, i - 1));
            assert(code < binom(i - 1, c));
            assert(dec_seq(code, i, c) == dec_seq(enc_seq(q, i - 1), i - 1, c).push(false));
        }
    }
}

/// Compute the popcount class and offset code of a word.
pub fn encode(w: u64, t: &Tables) -> (res: (u8, u64))
    requires
        t.wf(),
    ensures
        res.0 as int == count_bits(wseq(w), 64, true),
        res.0 <= 64,
        res.1 as int == enc_seq(wseq(w), 64),
{
    let mut code: u64 = 0;
    let mut k: u8 = 0;
    let mut i: u8 = 0;
    while i < 64
        invariant
            t.wf(),
            i <= 64,
            k as int == count_bits(wseq(w), i as int, true),
            k <= i,
            code as int == enc_seq(wseq(w), i as int),
        decreases 64 - i,
    {
        if get_bit(w, i as u64) {
            k = k + 1;
            proof {
                assert(wseq(w)[i as int] == u64_bit(w, i as int));
                assert(count_bits(wseq(w), i as int + 1, true) == k as int);
                assert(t.binom[i as int].len() == 65);
                lemma_enc_bound(wseq(w), i as int + 1);
                crate::binomial::lemma_binom_le_pow2(i as int + 1, k as int);
                assert(pow2(63) == 0x8000000000000000) by {
                    vstd::arithmetic::power2::lemma2_to64_rest();
                }
                if (i as int) < 63 {
                    vstd::arithmetic::power2::lemma_pow2_strictly_increases(i as nat, 63);
                }
                lemma_binom_nonneg(i as int, k as int);
            }
            code = code + t.binom[i as usize][k as usize];
        } else {
            proof {
                assert(wseq(w)[i as int] == u64_bit(w, i as int));
            }
        }
        i = i + 1;
    }
    (k, code)
}

/// Rebuild the word of class `class` whose offset code is `code`.
pub fn decode(code: u64, class: u8, t: &Tables) -> (w: u64)
    requires
        t.wf(),
        class <= 64,
        (code as int) < binom(64, class as int),
    ensures
        wseq(w) =~= dec_seq(code as int, 64, class as int),
{
    let ghost full = dec_seq(code as int, 64, class as int);
    proof {
        assert forall|tb: int| 0 <= tb < 64 implies !u64_bit(0u64, tb) by {
            vstd::arithmetic::power2::lemma_pow2_pos(tb as nat);
        }
    }
    let mut w: u64 = 0;
    let mut cur: u64 = code;
    let mut k: u8 = class;
    let mut i: u8 = 64;
    while i > 0
        invariant
            t.wf(),
            i <= 64,
            k <= 64,
            (cur as int) < binom(i as int, k as int),
            full =~= dec_seq(cur as int, i as int, k as int) + Seq::new(
                (64 - i) as nat,
                |j: int| u64_bit(w, i + j),
            ),
            forall|tb: int| 0 <= tb < i ==> !#[trigger] u64_bit(w, tb),
        decreases i,
    {
        proof {
            assert(t.binom[i - 1 as int].len() == 65);
            lemma_binom_nonneg(i - 1, k as int);
            if k as int > i as int - 1 && k > 0 {
                lemma_binom_high(i as int - 1, k as int);
                lemma_binom_nonneg(i as int - 1, k as int - 1);
                assert((cur as int) < binom(i as int, k as int));
                assert(binom(i as int, k as int) == binom(i as int - 1, k as int - 1) + binom(
                    i as int - 1,
                    k as int,
                ));
            }
        }
        i = i - 1;
        let b: u64 = t.binom[i as usize][k as usize];
        if k > 0 && cur >= b {
            proof {
                lemma_set_bit(w, i as u64);
                assert(dec_seq(cur as int, i as int + 1, k as int) == dec_seq(
                    cur as int - b as int,
                    i as int,
                    k as int - 1,
                ).push(true));
            }
            cur = cur - b;
            k = k - 1;
            w = w | (1u64 << (i as u64));
            proof {
                assert(full =~= dec_seq(cur as int, i as int, k as int) + Seq::new(
                    (64 - i) as nat,
                    |j: int| u64_bit(w, i + j),
                ));
            }
        } else {
            proof {
                assert(dec_seq(cur as int, i as int + 1, k as int) == dec_seq(
                    cur as int,
                    i as int,
                    k as int,
                ).push(false));
                assert(full =~= dec_seq(cur as int, i as int, k as int) + Seq::new(
                    (64 - i) as nat,
                    |j: int| u64_bit(w, i + j),
                ));
            }
        }
    }
    proof {
        assert(dec_seq(cur as int, 0, k as int) == Seq::<bool>::empty());
        assert(full =~= Seq::new(64, |j: int| u64_bit(w, 0 + j)));
        assert(wseq(w) =~= full);
    }
    w
}

} // verus!
