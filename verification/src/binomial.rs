//! Binomial coefficients, the width of an enumerative offset code per
//! popcount class, and the precomputed lookup tables the coder reads.
use vstd::prelude::*;
use vstd::arithmetic::power2::pow2;
use vstd::arithmetic::power2::lemma2_to64;
use vstd::arithmetic::power2::lemma2_to64_rest;
use vstd::arithmetic::power2::lemma_pow2_strictly_increases;
use vstd::bits::lemma_u64_shl_is_mul;

verus! {

/// The binomial coefficient `C(n, k)`; zero outside `0 <= k <= n`.
pub open spec fn binom(n: int, k: int) -> int
    decreases n, k + 1,
{
    if k < 0 {
        0
    } else if k == 0 {
        1
    } else if n <= 0 {
        0
    } else {
        binom(n - 1, k - 1) + binom(n - 1, k)
    }
}

/// Bits needed to store a value below `v`: the least `w <= cap` with
/// `v <= pow2(w)`.
pub open spec fn min_width(v: int, cap: int) -> int
    decreases cap,
{
    if cap <= 0 {
        0
    } else if v <= pow2((cap - 1) as nat) {
        min_width(v, cap - 1)
    } else {
        cap
    }
}

/// The stored width of the offset code of a block of popcount class `c`:
/// the least number of bits that can hold every code below `C(64, c)`.
pub open spec fn code_width(c: int) -> int {
    min_width(binom(64, c), 64)
}

pub proof fn lemma_binom_nonneg(n: int, k: int)
    ensures
        binom(n, k) >= 0,
    decreases n, k + 1,
{
    if k > 0 && n > 0 {
        lemma_binom_nonneg(n - 1, k - 1);
        lemma_binom_nonneg(n - 1, k);
    }
}

pub proof fn lemma_binom_pos(n: int, k: int)
    requires
        0 <= k <= n,
    ensures
        binom(n, k) >= 1,
    decreases n,
{
    if k > 0 {
        lemma_binom_pos(n - 1, k - 1);
        lemma_binom_nonneg(n - 1, k);
    }
}

pub proof fn lemma_binom_high(n: int, k: int)
    requires
        k > n >= 0,
    ensures
        binom(n, k) == 0,
    decreases n,
{
    if n > 0 {
        lemma_binom_high(n - 1, k - 1);
        lemma_binom_high(n - 1, k);
    }
}

/// A row of Pascal's triangle never exceeds half the next power of two.
pub proof fn lemma_binom_le_pow2(n: int, k: int)
    requires
        n >= 1,
    ensures
        binom(n, k) <= pow2((n - 1) as nat),
    decreases n,
{
    if k <= 0 || k > n {
        vstd::arithmetic::power2::lemma_pow2_pos((n - 1) as nat);
        if k > n {
            lemma_binom_high(n, k);
        }
    } else if n == 1 {
        assert(pow2(0) == 1) by {
            lemma2_to64();
        }
        assert(binom(0, 0) == 1);
        assert(binom(0, 1) == 0);
    } else {
        lemma_binom_le_pow2(n - 1, k - 1);
        lemma_binom_le_pow2(n - 1, k);
        assert(pow2((n - 1) as nat) == 2 * pow2((n - 2) as nat)) by {
            vstd::arithmetic::power2::lemma_pow2_unfold((n - 1) as nat);
        }
        assert(binom(n, k) == binom(n - 1, k - 1) + binom(n - 1, k));
        assert(binom(n - 1, k - 1) <= pow2((n - 2) as nat));
        assert(binom(n - 1, k) <= pow2((n - 2) as nat));
    }
}

/// C(n, k) <= C(n + 1, k).
pub proof fn lemma_binom_mono_n(n: int, k: int)
    requires
        n >= 0,
    ensures
        binom(n, k) <= binom(n + 1, k),
{
    lemma_binom_nonneg(n, k - 1);
}

/// The characteristic property of `min_width`.
pub proof fn lemma_min_width_le(v: int, cap: int)
    requires
        0 <= cap,
        v <= pow2(cap as nat),
    ensures
        0 <= min_width(v, cap) <= cap,
        v <= pow2(min_width(v, cap) as nat),
    decreases cap,
{
    if cap > 0 {
        if v <= pow2((cap - 1) as nat) {
            lemma_min_width_le(v, cap - 1);
        }
    }
}

/// `min_width` is the width the doubling search finds: any `w` that fits `v`
/// while `w - 1` does not is the minimum.
pub proof fn lemma_min_width_char(v: int, w: int, cap: int)
    requires
        0 <= w <= cap,
        v <= pow2(w as nat),
        w > 0 ==> pow2((w - 1) as nat) < v,
    ensures
        min_width(v, cap) == w,
    decreases cap,
{
    if cap > w {
        if w < cap - 1 {
            lemma_pow2_strictly_increases(w as nat, (cap - 1) as nat);
        }
        lemma_min_width_char(v, w, cap - 1);
    } else {
        if w > 0 {
            assert(min_width(v, w) == w);
        }
    }
}

/// Precomputed tables: all binomials up to `C(64, 64)` and the code width of
/// each popcount class.
pub struct Tables {
    pub binom: Vec<Vec<u64>>,
    pub widths: Vec<u8>,
}

impl Tables {
    pub open spec fn wf(&self) -> bool {
        &&& self.binom.len() == 65
        &&& forall|n: int| 0 <= n < 65 ==> #[trigger] self.binom[n].len() == 65
        &&& forall|n: int, k: int|
            0 <= n < 65 && 0 <= k < 65 ==> #[trigger] self.binom[n][k] as int == binom(n, k)
        &&& self.widths.len() == 65
        &&& forall|c: int| 0 <= c < 65 ==> #[trigger] self.widths[c] as int == code_width(c)
        &&& forall|c: int| 0 <= c < 65 ==> #[trigger] self.widths[c] <= 63
    }

    pub fn new() -> (t: Tables)
        ensures
            t.wf(),
    {
        let mut rows: Vec<Vec<u64>> = Vec::new();
        let mut n: usize = 0;
        while n < 65
            invariant
                n <= 65,
                rows.len() == n,
                forall|i: int| 0 <= i < n ==> #[trigger] rows[i].len() == 65,
                forall|i: int, k: int|
                    0 <= i < n && 0 <= k < 65 ==> #[trigger] rows[i][k] as int == binom(i, k),
            decreases 65 - n,
        {
            let mut row: Vec<u64> = Vec::new();
            let mut k: usize = 0;
            while k < 65
                invariant
                    k <= 65,
                    row.len() == k,
                    n <= 64,
                    rows.len() == n,
                    forall|i: int| 0 <= i < n ==> #[trigger] rows[i].len() == 65,
                    forall|i: int, j: int|
                        0 <= i < n && 0 <= j < 65 ==> #[trigger] rows[i][j] as int == binom(i, j),
                    forall|j: int| 0 <= j < k ==> #[trigger] row[j] as int == binom(n as int, j),
                decreases 65 - k,
            {
                let entry: u64 = if k == 0 {
                    1
                } else if n == 0 {
                    0
                } else {
                    proof {
                        lemma_binom_le_pow2(n as int, k as int);
                        lemma_binom_nonneg((n - 1) as int, (k - 1) as int);
                        lemma_binom_nonneg((n - 1) as int, k as int);
                        assert(pow2(63) == 0x8000000000000000) by {
                            lemma2_to64_rest();
                        }
                        if (n as int) - 1 < 63 {
                            lemma_pow2_strictly_increases((n - 1) as nat, 63);
                        }
                    }
                    assert(n >= 1 && k >= 1 && k < 65);
                    assert(rows@.len() == n);
                    assert(rows[n - 1 as int].len() == 65);
                    rows[n - 1][k - 1] + rows[n - 1][k]
                };
                row.push(entry);
                k = k + 1;
            }
            rows.push(row);
            n = n + 1;
        }
        let mut widths: Vec<u8> = Vec::new();
        let mut c: usize = 0;
        while c < 65
            invariant
                c <= 65,
                widths.len() == c,
                rows.len() == 65,
                forall|i: int| 0 <= i < 65 ==> #[trigger] rows[i].len() == 65,
                forall|i: int, j: int|
                    0 <= i < 65 && 0 <= j < 65 ==> #[trigger] rows[i][j] as int == binom(i, j),
                forall|j: int| 0 <= j < c ==> #[trigger] widths[j] as int == code_width(j),
                forall|j: int| 0 <= j < c ==> #[trigger] widths[j] <= 63,
            decreases 65 - c,
        {
            proof {
                assert(rows[64int].len() == 65);
            }
            let v: u64 = rows[64][c];
            proof {
                lemma_binom_le_pow2(64, c as int);
            }
            let mut w: u8 = 0;
            while v > (1u64 << (w as u64))
                invariant
                    w <= 63,
                    v as int == binom(64, c as int),
                    v as int <= pow2(63),
                    forall|x: int| 0 <= x < w ==> #[trigger] pow2(x as nat) < v as int,
                decreases 64 - w,
            {
                proof {
                    assert(pow2(63) == 0x8000000000000000) by {
                        lemma2_to64_rest();
                    }
                    if (w as int) < 63 {
                        lemma_pow2_strictly_increases(w as nat, 63);
                    }
                    lemma_u64_shl_is_mul(1u64, w as u64);
                    if w == 63 {
                        assert(false);
                    }
                }
                w = w + 1;
            }
            proof {
                assert(pow2(63) == 0x8000000000000000) by {
                    lemma2_to64_rest();
                }
                if (w as int) < 63 {
                    lemma_pow2_strictly_increases(w as nat, 63);
                }
                lemma_u64_shl_is_mul(1u64, w as u64);
                lemma_min_width_char(v as int, w as int, 64);
            }
            widths.push(w);
            c = c + 1;
        }
        Tables { binom: rows, widths }
    }
}

/// Every code of class `c` fits in `code_width(c)` bits.
pub proof fn lemma_code_fits(c: int)
    requires
        0 <= c <= 64,
    ensures
        binom(64, c) <= pow2(code_width(c) as nat),
        0 <= code_width(c) <= 63,
{
    lemma_binom_le_pow2(64, c);
    assert(code_width(c) == min_width(binom(64, c), 63));
    lemma_min_width_le(binom(64, c), 63);
}

/// Total width of the codes of the first `i` classes: the bit offset of the
/// code of block `i` inside the packed buffer.
pub open spec fn offset_of(classes: Seq<u8>, i: int) -> int
    decreases i,
{
    if i <= 0 {
        0
    } else {
        offset_of(classes, i - 1) + code_width(classes[i - 1] as int)
    }
}

pub proof fn lemma_offset_nonneg(classes: Seq<u8>, i: int)
    requires
        forall|j: int| 0 <= j < i ==> #[trigger] classes[j] <= 64,
    ensures
        0 <= offset_of(classes, i),
        forall|j: int| 0 <= j <= i ==> #[trigger] offset_of(classes, j) <= offset_of(classes, i),
    decreases i,
{
    if i > 0 {
        lemma_offset_nonneg(classes, i - 1);
        lemma_code_fits(classes[i - 1] as int);
    }
}

/// Each code is at most 63 bits wide.
pub proof fn lemma_offset_bound(classes: Seq<u8>, i: int)
    requires
        0 <= i,
        forall|j: int| 0 <= j < i ==> #[trigger] classes[j] <= 64,
    ensures
        0 <= offset_of(classes, i) <= 63 * i,
    decreases i,
{
    if i > 0 {
        lemma_offset_bound(classes, i - 1);
        lemma_code_fits(classes[i - 1] as int);
    }
}

/// The offset of a block depends only on the classes before it.
pub proof fn lemma_offset_congruent(c1: Seq<u8>, c2: Seq<u8>, i: int)
    requires
        forall|j: int| 0 <= j < i ==> c1[j] == c2[j],
    ensures
        offset_of(c1, i) == offset_of(c2, i),
    decreases i,
{
    if i > 0 {
        lemma_offset_congruent(c1, c2, i - 1);
    }
}

} // verus!

