//! The global laws of the dictionary, stated over the model that the
//! executable contracts use.
use vstd::prelude::*;
use vstd::arithmetic::power2::pow2;
use crate::model::count_bits;
use crate::model::valid_sel;
use crate::model::ones_list;
use crate::model::lemma_count_complement;
use crate::model::lemma_count_monotonic;
use crate::model::lemma_ones_list_len;
use crate::model::lemma_ones_list_index;
use crate::model::lemma_ones_list_contains;
use crate::model::lemma_ones_list_sorted;
use crate::model::lemma_ones_list_filter;
use crate::binomial::code_width;
use crate::binomial::lemma_code_fits;
use crate::enum_code::enc_seq;
use crate::enum_code::dec_seq;
use crate::enum_code::lemma_enc_nonneg;
use crate::enum_code::lemma_enc_bound;
use crate::enum_code::lemma_roundtrip;

verus! {

/// Rank/select duality: when `p` is the occurrence of rank `k` of `b`, the
/// bit at `p` is `b`, the count of `b` before `p` is `k`, the count through
/// `p` is `k + 1`, and no other position has that rank.
pub proof fn lemma_rank_select_duality(s: Seq<bool>, k: int, b: bool, p: int)
    requires
        valid_sel(s, k, b, p),
    ensures
        s[p] == b,
        count_bits(s, p, b) == k,
        count_bits(s, p + 1, b) == k + 1,
        forall|p2: int| valid_sel(s, k, b, p2) ==> p2 == p,
{
    assert forall|p2: int| valid_sel(s, k, b, p2) implies p2 == p by {
        crate::model::lemma_sel_unique(s, k, b, p, p2);
    }
}

/// Iterator/select equivalence: element `k` of the full set-bit list is the
/// occurrence of rank `k` of a one bit.
pub proof fn lemma_iter_select_equivalence(s: Seq<bool>, k: int)
    requires
        s.len() <= u64::MAX,
        0 <= k < count_bits(s, s.len() as int, true),
    ensures
        ones_list(s, 0, s.len() as int).len() == count_bits(s, s.len() as int, true),
        valid_sel(s, k, true, ones_list(s, 0, s.len() as int)[k] as int),
{
    lemma_ones_list_len(s, 0, s.len() as int);
    lemma_ones_list_index(s, 0, s.len() as int, k);
}

/// Range equivalence: iterating inside `[a, b)` yields the same sequence as
/// filtering the full iteration by that window.
pub proof fn lemma_range_equivalence(s: Seq<bool>, a: int, b: int)
    requires
        0 <= a,
        s.len() <= u64::MAX,
    ensures
        ones_list(
            s,
            a,
            if b < s.len() {
                b
            } else {
                s.len() as int
            },
        ) == ones_list(s, 0, s.len() as int).filter(|x: u64| a <= x && (x as int) < b),
{
    lemma_ones_list_filter(s, a, b, s.len() as int);
}

/// Round trip through compression: the full iteration lists exactly the
/// positions where a one was pushed, ascending, with one entry per one bit.
pub proof fn lemma_iter_reconstructs(s: Seq<bool>)
    requires
        s.len() <= u64::MAX,
    ensures
        ones_list(s, 0, s.len() as int).len() == count_bits(s, s.len() as int, true),
        forall|x: u64|
            #[trigger] ones_list(s, 0, s.len() as int).contains(x) <==> (x < s.len() && s[x as int]),
        forall|i: int, j: int|
            0 <= i < j < ones_list(s, 0, s.len() as int).len() ==> #[trigger] ones_list(
                s,
                0,
                s.len() as int,
            )[i] < #[trigger] ones_list(s, 0, s.len() as int)[j],
{
    lemma_ones_list_len(s, 0, s.len() as int);
    lemma_ones_list_contains(s, 0, s.len() as int);
    assert forall|i: int, j: int|
        0 <= i < j < ones_list(s, 0, s.len() as int).len() implies #[trigger] ones_list(
        s,
        0,
        s.len() as int,
    )[i] < #[trigger] ones_list(s, 0, s.len() as int)[j] by {
        lemma_ones_list_sorted(s, 0, s.len() as int, i, j);
    }
}

/// Rank totals and monotonicity: the two full counts add up to the length,
/// and each count is non-decreasing in the position.
pub proof fn lemma_rank_totals(s: Seq<bool>, p1: int, p2: int, b: bool)
    requires
        0 <= p1 <= p2,
    ensures
        count_bits(s, s.len() as int, true) + count_bits(s, s.len() as int, false) == s.len(),
        count_bits(s, p1, b) <= count_bits(s, p2, b),
{
    lemma_count_complement(s, s.len() as int);
    lemma_count_monotonic(s, p1, p2, b);
}

/// Enumerative code bijection: decoding inverts encoding on every 64-bit
/// window, and the code fits in the stored width of its class.
pub proof fn lemma_code_bijection(q: Seq<bool>)
    requires
        q.len() == 64,
    ensures
        dec_seq(enc_seq(q, 64), 64, count_bits(q, 64, true)) == q,
        0 <= enc_seq(q, 64) < pow2(code_width(count_bits(q, 64, true)) as nat),
{
    lemma_roundtrip(q, 64);
    assert(Seq::new(64, |j: int| q[j]) =~= q);
    lemma_enc_nonneg(q, 64);
    lemma_enc_bound(q, 64);
    crate::model::lemma_count_nonneg(q, 64, true);
    lemma_code_fits(count_bits(q, 64, true));
    crate::binomial::lemma_binom_pos(64, count_bits(q, 64, true));
}

} // verus!
