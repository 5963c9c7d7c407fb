//! Lazy iteration over set-bit positions: plain, and range-bounded with
//! constant-time seeking to an arbitrary start offset.
use vstd::prelude::*;
use std::ops::Range;
use crate::model::u64_bit;
use crate::model::ones_list;
use crate::model::lemma_count_monotonic;
use crate::model::lemma_ones_list_none;
use crate::model::lemma_ones_list_first;
use crate::binomial::offset_of;
use crate::binomial::code_width;
use crate::binomial::lemma_min_width_char;
use crate::binomial::lemma_offset_nonneg;
use crate::binomial::lemma_code_fits;
use crate::dict::RsDict;
use crate::dict::SMALL_BLOCK_SIZE;
use crate::dict::SMALL_BLOCK_PER_LARGE_BLOCK;
use crate::dict::LARGE_BLOCK_SIZE;
use crate::dict::class_of;
use crate::word::lemma_bit_is_shift;

verus! {

/// Clear the lowest set bit, the step that walks a decoded word's ones:
/// the portable `x & (x - 1)` form.
fn clear_lowest_bit_set(x: u64) -> (r: u64)
    requires
        x != 0,
    ensures
        forall|t: int|
            0 <= t < 64 ==> #[trigger] u64_bit(r, t) == (u64_bit(x, t) && t
                != u64::trailing_zeros(x) as int),
{
    let y = x - 1;
    let r = x & y;
    proof {
        let tz = u64::trailing_zeros(x) as u64;
        vstd::std_specs::bits::axiom_u64_trailing_zeros(x);
        let sh: u64 = (64 - (tz as int)) as u64;
        assert(x << sh == 0u64);
        assert(y + 1 == x);
        assert(x & y == x & !(1u64 << tz)) by (bit_vector)
            requires
                tz < 64u64,
                sh + tz == 64u64,
                (x >> tz) & 1u64 == 1u64,
                x << sh == 0u64,
                y + 1 == x,
        ;
        assert forall|t: u64| t < 64 implies #[trigger] u64_bit(x & !(1u64 << tz), t as int) == (
        u64_bit(x, t as int) && t != tz) by {
            lemma_bit_is_shift(x, t);
            lemma_bit_is_shift(x & !(1u64 << tz), t);
            assert(((x & !(1u64 << tz)) >> t) & 1 == (if t == tz {
                0u64
            } else {
                (x >> t) & 1
            })) by (bit_vector)
                requires
                    t < 64u64 && tz < 64u64,
            ;
        }
    }
    r
}

/// Clear the `num` lowest bits of a word: seeking into the middle of a
/// decoded block discards the positions before the range start.
pub fn clear_lower_bits(code: u64, num: u64) -> (r: u64)
    requires
        num < 64,
    ensures
        forall|t: int|
            0 <= t < 64 ==> #[trigger] u64_bit(r, t) == (u64_bit(code, t) && t >= num),
{
    proof {
        assert forall|t: u64| t < 64 implies #[trigger] u64_bit(code & (u64::MAX << num), t as int)
            == (u64_bit(code, t as int) && t >= num) by {
            lemma_bit_is_shift(code, t);
            lemma_bit_is_shift(code & (u64::MAX << num), t);
            assert(((code & (0xffffffffffffffffu64 << num)) >> t) & 1 == (if t >= num {
                (code >> t) & 1
            } else {
                0u64
            })) by (bit_vector)
                requires
                    t < 64u64 && num < 64u64,
            ;
        }
    }
    code & (u64::MAX << num)
}

/// A forward cursor over the set-bit positions of an [`RsDict`], optionally
/// bounded above, decoding one small block at a time.
pub struct RsDictIterator<'a> {
    pub father: &'a RsDict,
    pub current_code: u64,
    pub ptr: usize,
    pub index: usize,
    pub max_index: usize,
    pub max: Option<u64>,
    pub lo: Ghost<int>,
}

impl<'a> RsDictIterator<'a> {
    /// Exclusive upper bound on the positions this iterator may still yield.
    pub open spec fn upper(&self) -> int {
        let n = self.father@.len() as int;
        match self.max {
            Some(mx) => if (mx as int) < n {
                mx as int
            } else {
                n
            },
            None => n,
        }
    }

    /// The positions this iterator will still yield, in order.
    pub open spec fn rem(&self) -> Seq<u64> {
        ones_list(self.father@, self.lo@, self.upper())
    }

    pub open spec fn wf(&self) -> bool {
        let s = self.father@;
        let m = self.father.sb_classes.len() as int;
        let n = s.len() as int;
        let i = self.index as int;
        &&& self.father.wf()
        &&& self.max_index as int == m
        &&& 0 <= self.lo@
        &&& i <= m + 1
        &&& (i == m + 1 ==> self.current_code == 0 && self.lo@ >= n)
        &&& (i <= m ==> self.lo@ <= 64 * i + 64)
        &&& (i <= m ==> forall|t: int|
            0 <= t < 64 ==> #[trigger] u64_bit(self.current_code, t) == (64 * i + t >= self.lo@
                && 64 * i + t < n && s[64 * i + t]))
        &&& (i <= m ==> forall|p: int| self.lo@ <= p < 64 * i ==> !s[p])
        &&& (i < m ==> self.ptr as int == offset_of(self.father.sb_classes@, i + 1))
    }

    /// A cursor over every set bit of `father`.
    pub fn new(father: &'a RsDict) -> (r: RsDictIterator<'a>)
        requires
            father.wf(),
        ensures
            r.wf(),
            r.father == father,
            r.rem() == ones_list(father@, 0, father@.len() as int),
    {
        let m = father.sb_classes.len();
        if m == 0 {
            RsDictIterator {
                father,
                current_code: father.last_block.bits,
                ptr: 0,
                index: 0,
                max_index: 0,
                max: None,
                lo: Ghost(0),
            }
        } else {
            let cls = father.sb_classes[0];
            let width = father.tables.widths[cls as usize];
            let w = father.read_block_word(0, 0);
            proof {
                assert(offset_of(father.sb_classes@, 1) == offset_of(father.sb_classes@, 0)
                    + code_width(cls as int));
            }
            RsDictIterator {
                father,
                current_code: w,
                ptr: width as usize,
                index: 0,
                max_index: m,
                max: None,
                lo: Ghost(0),
            }
        }
    }

    /// A cursor positioned at `range.start` without scanning from zero,
    /// yielding only positions below `range.end`; `None` when the start is
    /// past the end of the sequence.
    pub fn new_in_range(father: &'a RsDict, range: Range<u64>) -> (r: Option<RsDictIterator<'a>>)
        requires
            father.wf(),
        ensures
            r is Some <==> (range.start as int) < father@.len(),
            r is Some ==> (r->Some_0).wf() && (r->Some_0).father == father && (r->Some_0).rem()
                == ones_list(
                father@,
                range.start as int,
                if (range.end as int) < father@.len() {
                    range.end as int
                } else {
                    father@.len() as int
                },
            ),
    {
        let ghost s = father.bits@;
        let ghost n = s.len() as int;
        let pos = range.start;
        if pos >= father.len() as u64 {
            return None;
        }
        let p = pos as usize;
        let m = father.sb_classes.len();
        let ghost mi = m as int;
        if p >= m * SMALL_BLOCK_SIZE {
            let code = clear_lower_bits(father.last_block.bits, (p - m * SMALL_BLOCK_SIZE) as u64);
            Some(
                RsDictIterator {
                    father,
                    current_code: code,
                    ptr: 0,
                    index: m,
                    max_index: m,
                    max: Some(range.end),
                    lo: Ghost(p as int),
                },
            )
        } else {
            let lblock = p / LARGE_BLOCK_SIZE;
            proof {
                assert(1024 * (p as int / 1024) <= p as int);
                assert(16 * (lblock as int) < mi);
                assert((mi + 15) / 16 >= lblock as int + 1);
            }
            let pointer = father.large_blocks[lblock].pointer;
            let sblock = p / SMALL_BLOCK_SIZE;
            let sb_start = lblock * SMALL_BLOCK_PER_LARGE_BLOCK;
            proof {
                assert(64 * (sblock as int) <= p as int);
                assert(64 * (16 * (lblock as int)) == 1024 * (lblock as int));
                assert(sb_start as int <= sblock as int);
            }
            let sums = crate::rank_acceleration::scan_block(
                &father.sb_classes,
                &father.tables,
                sb_start,
                sblock,
            );
            proof {
                lemma_offset_nonneg(father.sb_classes@, mi);
                lemma_offset_nonneg(father.sb_classes@, 16 * (lblock as int));
                assert(offset_of(father.sb_classes@, sblock as int) <= offset_of(
                    father.sb_classes@,
                    mi,
                ));
            }
            let ptr0 = pointer + sums.1;
            let word = father.read_block_word(sblock, ptr0);
            let cls = father.sb_classes[sblock];
            let width = father.tables.widths[cls as usize];
            let code = clear_lower_bits(word, (p % SMALL_BLOCK_SIZE) as u64);
            proof {
                lemma_code_fits(cls as int);
                assert(offset_of(father.sb_classes@, sblock as int) + code_width(cls as int)
                    == offset_of(father.sb_classes@, sblock as int + 1));
                assert(offset_of(father.sb_classes@, sblock as int + 1) <= offset_of(
                    father.sb_classes@,
                    mi,
                ));
                assert(64 * (sblock as int) + 64 <= 64 * mi <= n);
            }
            Some(
                RsDictIterator {
                    father,
                    current_code: code,
                    ptr: ptr0 + (width as usize),
                    index: sblock,
                    max_index: m,
                    max: Some(range.end),
                    lo: Ghost(p as int),
                },
            )
        }
    }

    /// The next set-bit position, or `None` when the iteration is finished.
    #[verifier::rlimit(100)]
    pub fn next(&mut self) -> (r: Option<u64>)
        requires
            old(self).wf(),
        ensures
            final(self).wf(),
            final(self).father == old(self).father,
            match r {
                Some(v) => old(self).rem().len() > 0 && v == old(self).rem()[0]
                    && final(self).rem() == old(self).rem().drop_first(),
                None => old(self).rem().len() == 0 && final(self).rem().len() == 0,
            },
    {
        let ghost s = self.father.bits@;
        let ghost n = s.len() as int;
        let ghost mi = self.max_index as int;
        let ghost lo0 = self.lo@;
        let ghost up = self.upper();
        let f = self.father;
        if self.index > self.max_index {
            proof {
                lemma_ones_list_none(s, lo0, up);
            }
            return None;
        }
        if self.current_code == 0 {
            loop
                invariant_except_break
                    self.current_code == 0,
                invariant
                    self.wf(),
                    self.father == f,
                    f == old(self).father,
                    self.max == old(self).max,
                    self.lo@ == lo0,
                    old(self).lo@ == lo0,
                    old(self).upper() == up,
                    self.index as int <= mi,
                    mi == self.max_index as int,
                    s == f.bits@,
                    n == s.len() as int,
                    up == self.upper(),
                ensures
                    self.wf(),
                    self.father == f,
                    self.max == old(self).max,
                    self.lo@ == lo0,
                    self.current_code != 0,
                    self.index as int <= mi,
                    mi == self.max_index as int,
                    s == f.bits@,
                    n == s.len() as int,
                    up == self.upper(),
                decreases mi + 1 - self.index,
            {
                let ghost classes = f.sb_classes@;
                if self.index >= self.max_index {
                    proof {
                        crate::word::lemma_zero_word();
                        assert forall|q: int| lo0 <= q < up implies !s[q] by {
                            if q >= 64 * mi {
                                let tq = q - 64 * mi;
                                assert(0 <= tq < 64);
                                assert(u64_bit(self.current_code, tq) == u64_bit(0u64, tq));
                                assert(!u64_bit(self.current_code, tq));
                            }
                        }
                        lemma_ones_list_none(s, lo0, up);
                        self.lo@ = n;
                        lemma_ones_list_none(s, n, up);
                    }
                    self.index = self.max_index + 1;
                    return None;
                }
                let i = self.index + 1;
                proof {
                    crate::word::lemma_zero_word();
                    assert(64 * (i as int) <= 64 * mi);
                    assert(64 * mi <= n);
                    assert forall|p: int| lo0 <= p < 64 * (i as int) implies !s[p] by {
                        if p >= 64 * (self.index as int) {
                            let tp = p - 64 * (self.index as int);
                            assert(0 <= tp < 64);
                            assert(u64_bit(self.current_code, tp) == u64_bit(0u64, tp));
                            assert(!u64_bit(self.current_code, tp));
                        }
                    }
                    assert(lo0 <= 64 * (i as int));
                }
                self.index = i;
                if i == self.max_index {
                    self.current_code = f.last_block.bits;
                    proof {
                        assert forall|tb: int| 0 <= tb < 64 implies #[trigger] u64_bit(
                            self.current_code,
                            tb,
                        ) == (64 * (i as int) + tb >= lo0 && 64 * (i as int) + tb < n && s[64 * (
                        i as int) + tb]) by {
                            assert(u64_bit(f.last_block.bits, tb) == (64 * mi + tb < n && s[64 * mi
                                + tb]));
                        }
                    }
                } else {
                    let cls = f.sb_classes[i];
                    if cls != 0 {
                        let word = f.read_block_word(i, self.ptr);
                        let width = f.tables.widths[cls as usize];
                        proof {
                            lemma_offset_nonneg(f.sb_classes@, mi);
                            lemma_code_fits(cls as int);
                            assert(offset_of(classes, i as int) + code_width(cls as int)
                                == offset_of(classes, i as int + 1));
                            assert(64 * (i as int) + 64 <= 64 * mi);
                        }
                        self.current_code = word;
                        self.ptr = self.ptr + (width as usize);
                        proof {
                            assert forall|tb: int| 0 <= tb < 64 implies #[trigger] u64_bit(
                                self.current_code,
                                tb,
                            ) == (64 * (i as int) + tb >= lo0 && 64 * (i as int) + tb < n && s[64
                                * (i as int) + tb]) by {
                                assert(u64_bit(word, tb) == s[64 * (i as int) + tb]);
                                assert(64 * (i as int) + tb < n);
                            }
                        }
                    } else {
                        proof {
                            assert(class_of(s, i as int) == 0);
                            assert forall|tb: int| 0 <= tb < 64 implies !(#[trigger] s[64 * (
                            i as int) + tb]) by {
                                lemma_count_monotonic(
                                    s,
                                    64 * (i as int),
                                    64 * (i as int) + tb,
                                    true,
                                );
                                lemma_count_monotonic(
                                    s,
                                    64 * (i as int) + tb + 1,
                                    64 * (i as int) + 64,
                                    true,
                                );
                            }
                            assert(code_width(0) == 0) by {
                                vstd::arithmetic::power2::lemma2_to64();
                                lemma_min_width_char(crate::binomial::binom(64, 0), 0, 64);
                            }
                            assert(offset_of(classes, i as int + 1) == offset_of(
                                classes,
                                i as int,
                            ) + code_width(0));
                            crate::word::lemma_zero_word();
                            assert forall|tb: int| 0 <= tb < 64 implies #[trigger] u64_bit(
                                self.current_code,
                                tb,
                            ) == (64 * (i as int) + tb >= lo0 && 64 * (i as int) + tb < n && s[64
                                * (i as int) + tb]) by {
                                assert(u64_bit(self.current_code, tb) == u64_bit(0u64, tb));
                            }
                        }
                    }
                }
                if self.current_code != 0 {
                    break ;
                }
            }
        }
        let t = self.current_code.trailing_zeros();
        let ghost ti = t as int;
        proof {
            vstd::std_specs::bits::axiom_u64_trailing_zeros(self.current_code);
            lemma_bit_is_shift(self.current_code, t as u64);
            assert(u64_bit(self.current_code, ti));
            assert forall|j: int| 0 <= j < ti implies !u64_bit(self.current_code, j) by {
                lemma_bit_is_shift(self.current_code, j as u64);
                assert((self.current_code >> (j as u64)) & 1 == 0);
            }
        }
        let ghost v = 64 * (self.index as int) + ti;
        proof {
            assert(64 * (self.index as int) <= 64 * mi <= n);
            assert(v < n && s[v] && v >= lo0);
            assert forall|q: int| lo0 <= q < v implies !s[q] by {
                if q >= 64 * (self.index as int) {
                    assert(!u64_bit(self.current_code, q - 64 * (self.index as int)));
                }
            }
        }
        let result = (self.index as u64) * 64 + (t as u64);
        let cleared = clear_lowest_bit_set(self.current_code);
        self.current_code = cleared;
        match self.max {
            Some(mx) if result >= mx => {
                proof {
                    lemma_ones_list_none(s, lo0, up);
                    self.lo@ = n;
                    lemma_ones_list_none(s, n, self.upper());
                }
                self.current_code = 0;
                self.index = self.max_index + 1;
                None
            },
            _ => {
                proof {
                    lemma_ones_list_first(s, lo0, up, v);
                    self.lo@ = v + 1;
                    assert(self.rem() =~= ones_list(s, v + 1, up));
                    assert((seq![v as u64] + ones_list(s, v + 1, up)).drop_first() =~= ones_list(
                        s,
                        v + 1,
                        up,
                    ));
                }
                Some(result)
            },
        }
    }
}

impl RsDict {
    /// An iterator over the positions of all set bits, ascending.
    pub fn iter<'a>(&'a self) -> (r: RsDictIterator<'a>)
        requires
            self.wf(),
        ensures
            r.wf(),
            r.father == self,
            r.rem() == ones_list(self@, 0, self@.len() as int),
    {
        RsDictIterator::new(self)
    }

    /// An iterator over the set-bit positions inside `range`, ascending;
    /// `None` when the range starts past the end of the sequence.
    pub fn iter_in_range<'a>(&'a self, range: Range<u64>) -> (r: Option<RsDictIterator<'a>>)
        requires
            self.wf(),
        ensures
            r is Some <==> (range.start as int) < self@.len(),
            r is Some ==> (r->Some_0).wf() && (r->Some_0).father == self && (r->Some_0).rem()
                == ones_list(
                self@,
                range.start as int,
                if (range.end as int) < self@.len() {
                    range.end as int
                } else {
                    self@.len() as int
                },
            ),
    {
        RsDictIterator::new_in_range(self, range)
    }
}

} // verus!
