//! Mathematical model of the dictionary: a logical sequence of bits,
//! counting (rank), occurrence positions (select) and the list of set-bit
//! positions that iteration produces.
use vstd::prelude::*;
use vstd::arithmetic::power2::pow2;

verus! {

/// Bit `j` of a 64-bit word, little endian: bit 0 is the least significant.
pub open spec fn u64_bit(v: u64, j: int) -> bool {
    (v as int / pow2(j as nat) as int) % 2 == 1
}

/// The 64 bits of a word as a sequence, index `j` holding bit `j`.
pub open spec fn wseq(v: u64) -> Seq<bool> {
    Seq::new(64, |j: int| u64_bit(v, j))
}

/// Number of occurrences of `b` among the first `i` elements of `s`.
pub open spec fn count_bits(s: Seq<bool>, i: int, b: bool) -> int
    decreases i,
{
    if i <= 0 {
        0
    } else {
        count_bits(s, i - 1, b) + if s[i - 1] == b {
            1int
        } else {
            0int
        }
    }
}

/// `p` is the position of the `k`-th occurrence (0-based) of `b` in `s`.
pub open spec fn valid_sel(s: Seq<bool>, k: int, b: bool, p: int) -> bool {
    &&& 0 <= p < s.len()
    &&& s[p] == b
    &&& count_bits(s, p, b) == k
}

/// Ascending positions of set bits of `s` inside `[from, to)`.
pub open spec fn ones_list(s: Seq<bool>, from: int, to: int) -> Seq<u64>
    decreases to - from,
{
    if from < 0 || from >= to {
        Seq::empty()
    } else {
        (if s[from] {
            seq![from as u64]
        } else {
            Seq::empty()
        }) + ones_list(s, from + 1, to)
    }
}

/// The value of the bit field `s[off .. off + w]`, little endian.
pub open spec fn seg_val(s: Seq<bool>, off: int, w: int) -> int
    decreases w,
{
    if w <= 0 {
        0
    } else {
        (if s[off] {
            1int
        } else {
            0int
        }) + 2 * seg_val(s, off + 1, w - 1)
    }
}

pub proof fn lemma_count_nonneg(s: Seq<bool>, i: int, b: bool)
    ensures
        0 <= count_bits(s, i, b) <= if i >= 0 {
            i
        } else {
            0
        },
    decreases i,
{
    if i > 0 {
        lemma_count_nonneg(s, i - 1, b);
    }
}

pub proof fn lemma_count_monotonic(s: Seq<bool>, i: int, j: int, b: bool)
    requires
        i <= j,
    ensures
        count_bits(s, i, b) <= count_bits(s, j, b),
        count_bits(s, j, b) - count_bits(s, i, b) <= j - i || i < 0,
    decreases j - i,
{
    if i < j {
        lemma_count_monotonic(s, i, j - 1, b);
    }
}

/// The two counts over a prefix add up to its length.
pub proof fn lemma_count_complement(s: Seq<bool>, i: int)
    requires
        0 <= i,
    ensures
        count_bits(s, i, true) + count_bits(s, i, false) == i,
    decreases i,
{
    if i > 0 {
        lemma_count_complement(s, i - 1);
    }
}

/// Counting depends only on the first `i` elements.
pub proof fn lemma_count_congruent(s1: Seq<bool>, s2: Seq<bool>, i: int, b: bool)
    requires
        forall|j: int| 0 <= j < i ==> s1[j] == s2[j],
    ensures
        count_bits(s1, i, b) == count_bits(s2, i, b),
    decreases i,
{
    if i > 0 {
        lemma_count_congruent(s1, s2, i - 1, b);
    }
}

/// Counting inside a subrange equals the difference of two prefix counts.
pub proof fn lemma_count_subrange(s: Seq<bool>, a: int, c: int, i: int, b: bool)
    requires
        0 <= a,
        a + i <= c <= s.len(),
        0 <= i,
    ensures
        count_bits(s.subrange(a, c), i, b) == count_bits(s, a + i, b) - count_bits(s, a, b),
    decreases i,
{
    if i > 0 {
        lemma_count_subrange(s, a, c, i - 1, b);
    }
}

pub proof fn lemma_ones_list_len(s: Seq<bool>, from: int, to: int)
    requires
        0 <= from <= to,
    ensures
        ones_list(s, from, to).len() == count_bits(s, to, true) - count_bits(s, from, true),
    decreases to - from,
{
    if from < to {
        lemma_ones_list_len(s, from + 1, to);
    }
}

/// Element `k` of the list is the occurrence of rank `k` counted from `from`.
pub proof fn lemma_ones_list_index(s: Seq<bool>, from: int, to: int, k: int)
    requires
        to <= u64::MAX,
        0 <= from,
        0 <= k < ones_list(s, from, to).len(),
    ensures
        from <= ones_list(s, from, to)[k] < to,
        s[ones_list(s, from, to)[k] as int],
        count_bits(s, ones_list(s, from, to)[k] as int, true) - count_bits(s, from, true) == k,
    decreases to - from,
{
    if from < to {
        if s[from] {
            if k > 0 {
                lemma_ones_list_index(s, from + 1, to, k - 1);
            }
        } else {
            lemma_ones_list_index(s, from + 1, to, k);
        }
    }
}

/// A window that holds no set bit produces the empty list.
pub proof fn lemma_ones_list_none(s: Seq<bool>, from: int, to: int)
    requires
        forall|p: int| from <= p < to ==> !s[p],
    ensures
        ones_list(s, from, to) =~= Seq::empty(),
    decreases to - from,
{
    if 0 <= from < to {
        lemma_ones_list_none(s, from + 1, to);
    }
}

/// The first set bit at or after `from` heads the list.
pub proof fn lemma_ones_list_first(s: Seq<bool>, from: int, to: int, q: int)
    requires
        0 <= from <= q < to,
        s[q],
        forall|p: int| from <= p < q ==> !s[p],
    ensures
        ones_list(s, from, to) =~= seq![q as u64] + ones_list(s, q + 1, to),
    decreases q - from,
{
    if from < q {
        lemma_ones_list_first(s, from + 1, to, q);
    }
}

/// Membership in the list is exactly being a set bit of the window.
pub proof fn lemma_ones_list_contains(s: Seq<bool>, from: int, to: int)
    requires
        to <= u64::MAX,
        0 <= from,
    ensures
        forall|x: u64|
            #[trigger] ones_list(s, from, to).contains(x) <==> (from <= x < to && s[x as int]),
    decreases to - from,
{
    if from < to {
        lemma_ones_list_contains(s, from + 1, to);
        let l = ones_list(s, from, to);
        let rest = ones_list(s, from + 1, to);
        assert forall|x: u64| #[trigger] l.contains(x) implies (from <= x < to && s[x as int]) by {
            let i = choose|i: int| 0 <= i < l.len() && l[i] == x;
            if s[from] {
                if i > 0 {
                    assert(rest[i - 1] == x);
                    assert(rest.contains(x));
                }
            } else {
                assert(rest[i] == x);
                assert(rest.contains(x));
            }
        }
        assert forall|x: u64| (from <= x < to && s[x as int]) implies #[trigger] l.contains(x) by {
            if x == from {
                assert(l[0] == x);
            } else {
                assert(rest.contains(x));
                let i = choose|i: int| 0 <= i < rest.len() && rest[i] == x;
                if s[from] {
                    assert(l[i + 1] == x);
                } else {
                    assert(l[i] == x);
                }
            }
        }
    }
}

/// The list is strictly ascending.
pub proof fn lemma_ones_list_sorted(s: Seq<bool>, from: int, to: int, i: int, j: int)
    requires
        to <= u64::MAX,
        0 <= from,
        0 <= i < j < ones_list(s, from, to).len(),
    ensures
        ones_list(s, from, to)[i] < ones_list(s, from, to)[j],
{
    let pi = ones_list(s, from, to)[i] as int;
    let pj = ones_list(s, from, to)[j] as int;
    lemma_ones_list_index(s, from, to, i);
    lemma_ones_list_index(s, from, to, j);
    if pi == pj {
        assert(false);
    } else if pi > pj {
        assert(count_bits(s, pj + 1, true) == count_bits(s, pj, true) + 1);
        lemma_count_monotonic(s, pj + 1, pi, true);
        assert(false);
    }
}

/// Peeling the last position off the window appends at most one element.
pub proof fn lemma_ones_list_snoc(s: Seq<bool>, from: int, to: int)
    requires
        0 <= from < to,
    ensures
        ones_list(s, from, to) =~= ones_list(s, from, to - 1) + (if s[to - 1] {
            seq![(to - 1) as u64]
        } else {
            Seq::empty()
        }),
    decreases to - from,
{
    let tail_part: Seq<u64> = if s[to - 1] {
        seq![(to - 1) as u64]
    } else {
        Seq::empty()
    };
    if from < to - 1 {
        lemma_ones_list_snoc(s, from + 1, to);
        assert(ones_list(s, from + 1, to) =~= ones_list(s, from + 1, to - 1) + tail_part);
        let head_part: Seq<u64> = if s[from] {
            seq![from as u64]
        } else {
            Seq::empty()
        };
        assert(ones_list(s, from, to) =~= head_part + (ones_list(s, from + 1, to - 1) + tail_part));
        assert(ones_list(s, from, to - 1) =~= head_part + ones_list(s, from + 1, to - 1));
        assert((head_part + ones_list(s, from + 1, to - 1)) + tail_part =~= head_part + (ones_list(
            s,
            from + 1,
            to - 1,
        ) + tail_part));
    } else {
        assert(ones_list(s, from, to - 1) =~= Seq::empty());
        assert(ones_list(s, from + 1, to) =~= Seq::empty());
        assert(ones_list(s, from, to) =~= tail_part + ones_list(s, from + 1, to));
        assert(ones_list(s, from, to) =~= ones_list(s, from, to - 1) + tail_part);
    }
    assert(ones_list(s, from, to) =~= ones_list(s, from, to - 1) + tail_part);
}

/// Restricting the window is the same as filtering the full list (range
/// equivalence between plain and bounded iteration).
pub proof fn lemma_ones_list_filter(s: Seq<bool>, a: int, b: int, to: int)
    requires
        0 <= a,
        0 <= to <= s.len(),
        to <= u64::MAX,
    ensures
        ones_list(s, 0, to).filter(|x: u64| a <= x && (x as int) < b) =~= ones_list(
            s,
            a,
            if b < to {
                b
            } else {
                to
            },
        ),
    decreases to,
{
    reveal(Seq::filter);
    let pred = |x: u64| a <= x && (x as int) < b;
    let cap = if b < to {
        b
    } else {
        to
    };
    if to == 0 {
        assert(ones_list(s, 0, 0) =~= Seq::<u64>::empty());
        lemma_ones_list_none(s, a, cap);
    } else {
        lemma_ones_list_filter(s, a, b, to - 1);
        lemma_ones_list_snoc(s, 0, to);
        let prev = ones_list(s, 0, to - 1);
        let full = ones_list(s, 0, to);
        let prev_cap = if b < to - 1 {
            b
        } else {
            to - 1
        };
        if s[to - 1] {
            assert(full =~= prev.push((to - 1) as u64));
            assert(full.drop_last() =~= prev);
            if pred((to - 1) as u64) {
                assert(full.filter(pred) =~= prev.filter(pred).push((to - 1) as u64));
                assert(prev_cap == to - 1);
                assert(cap == to);
                lemma_ones_list_snoc(s, a, to);
                assert(ones_list(s, a, cap) =~= ones_list(s, a, to - 1) + seq![(to - 1) as u64]);
            } else {
                assert(full.filter(pred) =~= prev.filter(pred));
                if a <= to - 1 < b {
                    assert(false);
                }
                if (to - 1) < a {
                    lemma_ones_list_none(s, a, cap);
                    lemma_ones_list_none(s, a, prev_cap);
                } else {
                    assert(b <= to - 1);
                    assert(cap == prev_cap);
                }
            }
        } else {
            assert(full =~= prev);
            if cap != prev_cap {
                assert(prev_cap == to - 1 && cap == to);
                if a < to {
                    lemma_ones_list_snoc(s, a, to);
                }
            }
        }
    }
}

/// The occurrence of a given rank is unique.
pub proof fn lemma_sel_unique(s: Seq<bool>, k: int, b: bool, p1: int, p2: int)
    requires
        valid_sel(s, k, b, p1),
        valid_sel(s, k, b, p2),
    ensures
        p1 == p2,
{
    if p1 < p2 {
        assert(count_bits(s, p1 + 1, b) == k + 1);
        lemma_count_monotonic(s, p1 + 1, p2, b);
    }
    if p2 < p1 {
        assert(count_bits(s, p2 + 1, b) == k + 1);
        lemma_count_monotonic(s, p2 + 1, p1, b);
    }
}

/// Bit `j` of a nonnegative integer.
pub open spec fn nth_bit(v: int, j: int) -> bool {
    (v / pow2(j as nat) as int) % 2 == 1
}

pub proof fn lemma_nth_bit_half(v: int, j: int)
    requires
        v >= 0,
        j >= 0,
    ensures
        nth_bit(v, j + 1) == nth_bit(v / 2, j),
{
    vstd::arithmetic::power2::lemma_pow2_adds(1, j as nat);
    vstd::arithmetic::power2::lemma_pow2_pos(j as nat);
    assert(pow2(1) == 2) by {
        vstd::arithmetic::power2::lemma2_to64();
    }
    vstd::arithmetic::div_mod::lemma_div_denominator(v, 2, pow2(j as nat) as int);
}

/// Two values below `pow2(w)` that agree on their low `w` bits are equal.
pub proof fn lemma_bits_equal(a: int, b: int, w: int)
    requires
        0 <= w,
        0 <= a < pow2(w as nat),
        0 <= b < pow2(w as nat),
        forall|j: int| 0 <= j < w ==> nth_bit(a, j) == nth_bit(b, j),
    ensures
        a == b,
    decreases w,
{
    if w == 0 {
        assert(pow2(0) == 1) by {
            vstd::arithmetic::power2::lemma2_to64();
        }
    } else {
        assert(pow2(0) == 1) by {
            vstd::arithmetic::power2::lemma2_to64();
        }
        vstd::arithmetic::div_mod::lemma_div_basics(a);
        vstd::arithmetic::div_mod::lemma_div_basics(b);
        assert(nth_bit(a, 0) == (a % 2 == 1));
        assert(nth_bit(b, 0) == (b % 2 == 1));
        vstd::arithmetic::div_mod::lemma_fundamental_div_mod(a, 2);
        vstd::arithmetic::div_mod::lemma_fundamental_div_mod(b, 2);
        assert(pow2(w as nat) == 2 * pow2((w - 1) as nat)) by {
            vstd::arithmetic::power2::lemma_pow2_unfold(w as nat);
        }
        assert forall|j: int| 0 <= j < w - 1 implies #[trigger] nth_bit(a / 2, j) == nth_bit(
            b / 2,
            j,
        ) by {
            lemma_nth_bit_half(a, j);
            lemma_nth_bit_half(b, j);
        }
        assert(a % 2 == b % 2);
        lemma_bits_equal(a / 2, b / 2, w - 1);
    }
}

/// A value whose bits at and above `w` are clear lies below `pow2(w)`.
pub proof fn lemma_high_zero_bound(v: int, w: int, cap: int)
    requires
        0 <= w <= cap,
        0 <= v < pow2(cap as nat),
        forall|j: int| w <= j < cap ==> !nth_bit(v, j),
    ensures
        v < pow2(w as nat),
    decreases cap - w,
{
    if cap > w {
        let p = pow2((cap - 1) as nat) as int;
        vstd::arithmetic::power2::lemma_pow2_pos((cap - 1) as nat);
        assert(pow2(cap as nat) == 2 * pow2((cap - 1) as nat)) by {
            vstd::arithmetic::power2::lemma_pow2_unfold(cap as nat);
        }
        vstd::arithmetic::div_mod::lemma_fundamental_div_mod(v, p);
        vstd::arithmetic::div_mod::lemma_mod_bound(v, p);
        let q = v / p;
        assert(q >= 0) by {
            vstd::arithmetic::div_mod::lemma_div_pos_is_pos(v, p);
        }
        assert(q < 2) by (nonlinear_arith)
            requires
                p > 0,
                q * p + v % p == v,
                v % p >= 0,
                v < 2 * p,
                q >= 0,
        ;
        assert(!nth_bit(v, cap - 1));
        assert(q % 2 != 1);
        assert(q == 0);
        assert(v == p * q + v % p);
        assert(p * q == 0) by (nonlinear_arith)
            requires
                q == 0,
        ;
        assert(v < p);
        lemma_high_zero_bound(v, w, cap - 1);
    }
}

/// A word whose low `w` bits spell `v` and whose high bits are clear is `v`.
pub proof fn lemma_value_from_bits(r: u64, v: int, w: int)
    requires
        0 <= w <= 64,
        0 <= v < pow2(w as nat),
        forall|j: int| 0 <= j < w ==> u64_bit(r, j) == nth_bit(v, j),
        forall|j: int| w <= j < 64 ==> !u64_bit(r, j),
    ensures
        r as int == v,
{
    assert(pow2(64) == 0x10000000000000000) by {
        vstd::arithmetic::power2::lemma2_to64_rest();
    }
    assert(forall|j: int| 0 <= j < 64 ==> u64_bit(r, j) == nth_bit(r as int, j));
    lemma_high_zero_bound(r as int, w, 64);
    lemma_bits_equal(r as int, v, w);
}

} // verus!
