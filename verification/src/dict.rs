//! The dictionary facade: the logical bit sequence, the small/large block
//! hierarchy maintained by `push`, and the rank and select queries.
use vstd::prelude::*;
use crate::model::count_bits;
use crate::model::valid_sel;
use crate::model::u64_bit;
use crate::model::nth_bit;
use crate::model::wseq;
use crate::model::lemma_count_nonneg;
use crate::model::lemma_count_monotonic;
use crate::model::lemma_count_complement;
use crate::model::lemma_count_congruent;
use crate::model::lemma_count_subrange;
use crate::binomial::code_width;
use crate::binomial::offset_of;
use crate::binomial::binom;
use crate::binomial::Tables;
use crate::binomial::lemma_code_fits;
use crate::binomial::lemma_offset_congruent;
use crate::binomial::lemma_offset_nonneg;
use crate::bit_packed::BitPackedBuffer;
use crate::enum_code::enc_seq;
use crate::enum_code::dec_seq;
use crate::enum_code::lemma_enc_nonneg;
use crate::enum_code::lemma_enc_bound;
use crate::enum_code::lemma_roundtrip;
use crate::word::lemma_set_bit;
use crate::word::count_in_word;
use crate::word::select_in_word;

verus! {

/// Bits per small block: the unit of popcount-class compression.
pub const SMALL_BLOCK_SIZE: usize = 64;

/// Small blocks per large block.
pub const SMALL_BLOCK_PER_LARGE_BLOCK: usize = 16;

/// Bits per large block: the unit of rank/select checkpointing.
pub const LARGE_BLOCK_SIZE: usize = 1024;

/// One select sample is kept per this many occurrences of a bit value.
pub const SELECT_BLOCK_SIZE: usize = 1024;

/// A rank/select checkpoint: the state just before this large block's first
/// small block was committed.
pub struct LargeBlock {
    /// Bit offset into the code buffer of this large block's first code.
    pub pointer: usize,
    /// Ones among all committed blocks strictly before this large block.
    pub rank: usize,
}

/// The in-progress final small block, kept raw until it fills.
pub struct LastBlock {
    pub bits: u64,
    pub num_ones: usize,
    pub num_zeros: usize,
}

/// The number of ones inside committed small block `i` of `s`.
pub open spec fn class_of(s: Seq<bool>, i: int) -> int {
    count_bits(s, 64 * (i + 1), true) - count_bits(s, 64 * i, true)
}

/// Committed small block `i` of `s` as a 64-bit window.
pub open spec fn block_seq(s: Seq<bool>, i: int) -> Seq<bool> {
    s.subrange(64 * i, 64 * i + 64)
}

/// The offset code stored for committed small block `i` of `s`.
pub open spec fn enc_of(s: Seq<bool>, i: int) -> int {
    enc_seq(block_seq(s, i), 64)
}

/// The stored code bits of one block spell out the value `v` over `w` bits.
pub open spec fn code_stored(buf: Seq<bool>, off: int, v: int, w: int) -> bool {
    forall|j: int| 0 <= j < w ==> buf[off + j] == nth_bit(v, j)
}

/// A succinct rank/select dictionary over an append-only bit sequence.
pub struct RsDict {
    pub len: usize,
    pub num_ones: usize,
    pub num_zeros: usize,
    pub sb_classes: Vec<u8>,
    pub sb_indices: BitPackedBuffer,
    pub large_blocks: Vec<LargeBlock>,
    pub select_one_inds: Vec<u64>,
    pub select_zero_inds: Vec<u64>,
    pub last_block: LastBlock,
    pub tables: Tables,
    pub bits: Ghost<Seq<bool>>,
}

impl View for RsDict {
    type V = Seq<bool>;

    open spec fn view(&self) -> Seq<bool> {
        self.bits@
    }
}

impl RsDict {
    /// The invariant pieces that speak only of the committed blocks.
    pub open spec fn wf_core(&self) -> bool {
        let s = self.bits@;
        let m = self.sb_classes.len() as int;
        let n = s.len() as int;
        &&& self.tables.wf()
        &&& n <= usize::MAX
        &&& self.num_ones as int == count_bits(s, n, true)
        &&& self.num_zeros as int == count_bits(s, n, false)
        &&& 64 * m <= n
        &&& forall|i: int|
            0 <= i < m ==> #[trigger] self.sb_classes[i] as int == class_of(s, i)
        &&& forall|i: int| 0 <= i < m ==> #[trigger] self.sb_classes[i] <= 64
        &&& self.sb_indices.wf()
        &&& self.sb_indices.view().len() == offset_of(self.sb_classes@, m)
        &&& forall|i: int|
            0 <= i < m ==> #[trigger] code_stored(
                self.sb_indices.view(),
                offset_of(self.sb_classes@, i),
                enc_of(self.bits@, i),
                code_width(self.sb_classes[i] as int),
            )
        &&& self.large_blocks.len() as int == (m + 15) / 16
        &&& forall|l: int|
            0 <= l < self.large_blocks.len() ==> #[trigger] self.large_blocks[l].pointer as int
                == offset_of(self.sb_classes@, 16 * l)
        &&& forall|l: int|
            0 <= l < self.large_blocks.len() ==> #[trigger] self.large_blocks[l].rank as int
                == count_bits(s, 1024 * l, true)
        &&& self.select_one_inds.len() as int == (self.num_ones + 1023) as int / 1024
        &&& forall|j: int|
            0 <= j < self.select_one_inds.len() ==> valid_sel(
                s,
                1024 * j,
                true,
                #[trigger] self.select_one_inds[j] as int,
            )
        &&& self.select_zero_inds.len() as int == (self.num_zeros + 1023) as int / 1024
        &&& forall|j: int|
            0 <= j < self.select_zero_inds.len() ==> valid_sel(
                s,
                1024 * j,
                false,
                #[trigger] self.select_zero_inds[j] as int,
            )
    }

    /// Full well-formedness: the committed structure plus the raw tail.
    pub open spec fn wf(&self) -> bool {
        let s = self.bits@;
        let m = self.sb_classes.len() as int;
        let n = s.len() as int;
        &&& self.wf_core()
        &&& self.len == n
        &&& n < 64 * m + 64
        &&& forall|j: int|
            0 <= j < 64 ==> #[trigger] u64_bit(self.last_block.bits, j) == (64 * m + j < n
                && s[64 * m + j])
        &&& self.last_block.num_ones as int == count_bits(s, n, true) - count_bits(s, 64 * m, true)
        &&& self.last_block.num_zeros as int == count_bits(s, n, false) - count_bits(
            s,
            64 * m,
            false,
        )
    }

    /// Number of bits pushed so far.
    pub fn len(&self) -> (r: usize)
        requires
            self.wf(),
        ensures
            r == self@.len(),
    {
        self.len
    }

    /// Number of one bits pushed so far.
    pub fn count_ones(&self) -> (r: usize)
        requires
            self.wf(),
        ensures
            r as int == count_bits(self@, self@.len() as int, true),
    {
        self.num_ones
    }

    /// Number of zero bits pushed so far.
    pub fn count_zeros(&self) -> (r: usize)
        requires
            self.wf(),
        ensures
            r as int == count_bits(self@, self@.len() as int, false),
    {
        self.num_zeros
    }

    /// An empty dictionary.
    pub fn new() -> (r: RsDict)
        ensures
            r.wf(),
            r@ =~= Seq::empty(),
    {
        let r = RsDict {
            len: 0,
            num_ones: 0,
            num_zeros: 0,
            sb_classes: Vec::new(),
            sb_indices: BitPackedBuffer::new(),
            large_blocks: Vec::new(),
            select_one_inds: Vec::new(),
            select_zero_inds: Vec::new(),
            last_block: LastBlock { bits: 0, num_ones: 0, num_zeros: 0 },
            tables: Tables::new(),
            bits: Ghost(Seq::empty()),
        };
        proof {
            assert forall|j: int| 0 <= j < 64 implies !u64_bit(0u64, j) by {
                vstd::arithmetic::power2::lemma_pow2_pos(j as nat);
            }
        }
        r
    }

    /// An empty dictionary pre-sized for about `hint` bits.
    pub fn with_capacity(hint: usize) -> (r: RsDict)
        ensures
            r.wf(),
            r@ =~= Seq::empty(),
    {
        let mut r = RsDict::new();
        let mut classes: Vec<u8> = Vec::with_capacity(hint / 64);
        proof {
            assert(classes@ =~= r.sb_classes@);
        }
        r.sb_classes = classes;
        r
    }

    /// Append one bit. Amortized constant time; a filled 64-bit block is
    /// compressed through the enumerative coder on the fly.
    #[verifier::rlimit(100)]
    pub fn push(&mut self, bit: bool)
        requires
            old(self).wf(),
            old(self)@.len() + 64 < usize::MAX,
        ensures
            final(self).wf(),
            final(self)@ =~= old(self)@.push(bit),
    {
        let ghost s_old = self.bits@;
        let ghost s_new = s_old.push(bit);
        let ghost n_old = s_old.len() as int;
        let ghost m = self.sb_classes.len() as int;
        proof {
            self.bits@ = s_new;
            assert forall|p: int, b: bool| 0 <= p <= n_old implies #[trigger] count_bits(
                s_new,
                p,
                b,
            ) == count_bits(s_old, p, b) by {
                lemma_count_congruent(s_new, s_old, p, b);
            }
            assert forall|i: int| 0 <= i < m implies #[trigger] block_seq(s_new, i) =~= block_seq(
                s_old,
                i,
            ) by {
                assert(64 * i + 64 <= 64 * m <= n_old);
            }
            lemma_count_congruent(s_new, s_old, n_old, bit);
            lemma_count_congruent(s_new, s_old, n_old, !bit);
            assert(s_new[n_old] == bit);
            assert(count_bits(s_new, n_old + 1, bit) == count_bits(s_old, n_old, bit) + 1);
            assert(count_bits(s_new, n_old + 1, !bit) == count_bits(s_old, n_old, !bit));
            lemma_count_nonneg(s_old, n_old, true);
            lemma_count_nonneg(s_old, n_old, false);
            lemma_count_monotonic(s_old, 64 * m, n_old, true);
            lemma_count_monotonic(s_old, 64 * m, n_old, false);
            lemma_count_nonneg(s_old, 64 * m, true);
            lemma_count_nonneg(s_old, 64 * m, false);
        }
        let occ: usize = self.len % SMALL_BLOCK_SIZE;
        proof {
            lemma_count_complement(s_old, n_old);
            lemma_count_complement(s_old, 64 * m);
            assert(occ as int == n_old - 64 * m);
        }
        if bit {
            let ghost r = self.num_ones as int;
            if self.num_ones % SELECT_BLOCK_SIZE == 0 {
                proof {
                    assert(1024 * (r / 1024) == r);
                    assert((r + 1023) / 1024 == r / 1024);
                    assert((r + 1 + 1023) / 1024 == r / 1024 + 1);
                }
                self.select_one_inds.push(self.len as u64);
            } else {
                proof {
                    assert((r + 1 + 1023) / 1024 == (r + 1023) / 1024);
                }
            }
            let w = self.last_block.bits;
            proof {
                lemma_set_bit(w, occ as u64);
            }
            self.last_block.bits = w | (1u64 << (occ as u64));
            self.last_block.num_ones = self.last_block.num_ones + 1;
            self.num_ones = self.num_ones + 1;
        } else {
            let ghost r = self.num_zeros as int;
            if self.num_zeros % SELECT_BLOCK_SIZE == 0 {
                proof {
                    assert(1024 * (r / 1024) == r);
                    assert((r + 1023) / 1024 == r / 1024);
                    assert((r + 1 + 1023) / 1024 == r / 1024 + 1);
                }
                self.select_zero_inds.push(self.len as u64);
            } else {
                proof {
                    assert((r + 1 + 1023) / 1024 == (r + 1023) / 1024);
                }
            }
            self.last_block.num_zeros = self.last_block.num_zeros + 1;
            self.num_zeros = self.num_zeros + 1;
        }
        self.len = self.len + 1;
        proof {
            assert forall|j: int| 0 <= j < 64 implies #[trigger] u64_bit(self.last_block.bits, j)
                == (64 * m + j < n_old + 1 && s_new[64 * m + j]) by {
                if j < occ as int {
                    assert(s_new[64 * m + j] == s_old[64 * m + j]);
                } else if j == occ as int {
                    assert(s_new[n_old] == bit);
                }
            }
        }
        proof {
            let s = self.bits@;
            let classes = self.sb_classes@;
            assert forall|i: int| 0 <= i < m implies #[trigger] self.sb_classes[i] as int
                == class_of(s, i) by {
                assert(self.sb_classes[i] as int == class_of(s_old, i));
            }
            assert forall|i: int| 0 <= i < m implies #[trigger] code_stored(
                self.sb_indices.view(),
                offset_of(classes, i),
                enc_of(s, i),
                code_width(self.sb_classes[i] as int),
            ) by {
                assert(code_stored(
                    self.sb_indices.view(),
                    offset_of(classes, i),
                    enc_of(s_old, i),
                    code_width(self.sb_classes[i] as int),
                ));
                assert(enc_of(s, i) == enc_of(s_old, i));
            }
            assert forall|l: int| 0 <= l < self.large_blocks.len() implies #[trigger] self.large_blocks[l].rank as int
                == count_bits(s, 1024 * l, true) by {
                lemma_count_congruent(s, s_old, 1024 * l, true);
            }
            assert forall|j: int|
                0 <= j < self.select_one_inds.len() implies valid_sel(
                s,
                1024 * j,
                true,
                #[trigger] self.select_one_inds[j] as int,
            ) by {
                if j < self.select_one_inds.len() - 1 || (s_old.len() as int == n_old
                    && self.select_one_inds.len() as int == (count_bits(s_old, n_old, true) + 1023)
                    / 1024) {
                }
                let p = self.select_one_inds[j] as int;
                if p < n_old {
                    lemma_count_congruent(s, s_old, p, true);
                }
            }
            assert forall|j: int|
                0 <= j < self.select_zero_inds.len() implies valid_sel(
                s,
                1024 * j,
                false,
                #[trigger] self.select_zero_inds[j] as int,
            ) by {
                let p = self.select_zero_inds[j] as int;
                if p < n_old {
                    lemma_count_congruent(s, s_old, p, false);
                }
            }
        }
        if self.len % SMALL_BLOCK_SIZE == 0 {
            self.commit_block();
        }
    }

    /// Compress the filled tail block into the block hierarchy.
    #[verifier::rlimit(100)]
    fn commit_block(&mut self)
        requires
            old(self).wf_core(),
            old(self).len == old(self)@.len(),
            old(self)@.len() as int == 64 * (old(self).sb_classes.len() as int) + 64,
            old(self)@.len() + 63 < usize::MAX,
            forall|j: int|
                0 <= j < 64 ==> #[trigger] u64_bit(old(self).last_block.bits, j) == old(
                    self,
                )@[64 * (old(self).sb_classes.len() as int) + j],
            old(self).last_block.num_ones as int == count_bits(
                old(self)@,
                old(self)@.len() as int,
                true,
            ) - count_bits(old(self)@, 64 * (old(self).sb_classes.len() as int), true),
        ensures
            final(self).wf(),
            final(self)@ =~= old(self)@,
            final(self)@ == old(self)@,
    {
        let ghost s = self.bits@;
        let ghost m = self.sb_classes.len() as int;
        let ghost n = s.len() as int;
        let word = self.last_block.bits;
        proof {
            assert(wseq(word) =~= block_seq(s, m));
            lemma_offset_nonneg(self.sb_classes@, m);
            lemma_count_subrange(s, 64 * m, 64 * m + 64, 64, true);
            lemma_count_nonneg(block_seq(s, m), 64, true);
            lemma_count_monotonic(s, 64 * m, n, true);
            lemma_count_nonneg(s, 64 * m, true);
        }
        if self.sb_classes.len() % SMALL_BLOCK_PER_LARGE_BLOCK == 0 {
            let lb = LargeBlock {
                pointer: self.sb_indices.bit_length,
                rank: self.num_ones - self.last_block.num_ones,
            };
            self.large_blocks.push(lb);
        }
        let (cls, code) = crate::enum_code::encode(word, &self.tables);
        let width = self.tables.widths[cls as usize];
        proof {
            assert(count_bits(wseq(word), 64, true) == count_bits(block_seq(s, m), 64, true));
            assert(cls as int == class_of(s, m));
            lemma_enc_bound(wseq(word), 64);
            lemma_code_fits(cls as int);
            assert(enc_seq(wseq(word), 64) == enc_of(s, m));
            lemma_enc_nonneg(wseq(word), 64);
        }
        let ghost classes_old = self.sb_classes@;
        let ghost codes_old = self.sb_indices.view();
        proof {
            crate::binomial::lemma_offset_bound(classes_old, m);
            assert(self.sb_indices.bit_length as int <= 63 * m);
            if m == 0 {
                assert(63 * m + 128 < usize::MAX);
            } else {
                assert(63 * m + 128 <= n + 63);
            }
        }
        self.sb_classes.push(cls);
        self.sb_indices.push(code, width);
        self.last_block = LastBlock { bits: 0, num_ones: 0, num_zeros: 0 };
        proof {
            let classes_new = self.sb_classes@;
            lemma_offset_congruent(classes_old, classes_new, m);
            assert(offset_of(classes_new, m + 1) == offset_of(classes_old, m) + code_width(
                cls as int,
            ));
            assert forall|i: int| 0 <= i < m + 1 implies #[trigger] code_stored(
                self.sb_indices.view(),
                offset_of(classes_new, i),
                enc_of(s, i),
                code_width(classes_new[i] as int),
            ) by {
                lemma_offset_congruent(classes_old, classes_new, i);
                lemma_offset_nonneg(classes_old, m);
                lemma_offset_nonneg(classes_old, i);
                if i < m {
                    assert(code_stored(
                        codes_old,
                        offset_of(classes_old, i),
                        enc_of(s, i),
                        code_width(classes_old[i] as int),
                    ));
                    lemma_offset_congruent(classes_old, classes_new, i + 1);
                    assert(offset_of(classes_old, i) + code_width(classes_old[i] as int)
                        == offset_of(classes_old, i + 1));
                    lemma_offset_nonneg(classes_old, i + 1);
                    assert forall|j: int|
                        0 <= j < code_width(classes_new[i] as int) implies self.sb_indices.view()[offset_of(
                        classes_new,
                        i,
                    ) + j] == nth_bit(enc_of(s, i), j) by {
                        assert(self.sb_indices.view()[offset_of(classes_old, i) + j] == codes_old[offset_of(
                            classes_old,
                            i,
                        ) + j]);
                    }
                } else {
                    assert forall|j: int|
                        0 <= j < code_width(cls as int) implies self.sb_indices.view()[offset_of(
                        classes_new,
                        i,
                    ) + j] == nth_bit(enc_of(s, i), j) by {
                        assert(self.sb_indices.view()[offset_of(classes_old, m) + j] == u64_bit(
                            code,
                            j,
                        ));
                        assert(u64_bit(code, j) == nth_bit(code as int, j));
                    }
                }
            }
            assert forall|j: int| 0 <= j < 64 implies #[trigger] u64_bit(self.last_block.bits, j)
                == (64 * (m + 1) + j < n && s[64 * (m + 1) + j]) by {
                vstd::arithmetic::power2::lemma_pow2_pos(j as nat);
            }
            assert forall|i: int| 0 <= i < m + 1 implies #[trigger] self.sb_classes[i] as int
                == class_of(s, i) && #[trigger] self.sb_classes[i] <= 64 by {
                if i < m {
                    assert(classes_new[i] == classes_old[i]);
                }
            }
            if m % 16 == 0 {
                assert((m + 15) / 16 == m / 16);
                assert((m + 16) / 16 == m / 16 + 1);
            } else {
                assert((m + 16) / 16 == (m + 15) / 16);
            }
            assert(self.large_blocks.len() as int == (m + 16) / 16);
            assert forall|l: int|
                0 <= l < self.large_blocks.len() implies #[trigger] self.large_blocks[l].pointer as int
                == offset_of(self.sb_classes@, 16 * l) by {
                let oldlen = old(self).large_blocks.len() as int;
                if l < oldlen {
                    assert(old(self).large_blocks[l].pointer as int == offset_of(
                        classes_old,
                        16 * l,
                    ));
                    assert(self.large_blocks[l] == old(self).large_blocks[l]);
                    assert(16 * ((m + 15) / 16) <= m + 15);
                    assert(16 * l <= m);
                    lemma_offset_congruent(classes_old, classes_new, 16 * l);
                } else {
                    assert(m % 16 == 0 && l == m / 16);
                    assert(16 * (m / 16) == m);
                    lemma_offset_congruent(classes_old, classes_new, m);
                    assert(self.large_blocks[l].pointer as int == offset_of(classes_old, m));
                }
            }
            assert forall|l: int|
                0 <= l < self.large_blocks.len() implies #[trigger] self.large_blocks[l].rank as int
                == count_bits(s, 1024 * l, true) by {
                let oldlen = old(self).large_blocks.len() as int;
                if l < oldlen {
                    assert(old(self).large_blocks[l].rank as int == count_bits(s, 1024 * l, true));
                    assert(self.large_blocks[l] == old(self).large_blocks[l]);
                } else {
                    assert(m % 16 == 0 && l == m / 16);
                    assert(16 * (m / 16) == m);
                    assert(1024 * l == 64 * m);
                }
            }
        }
    }

    /// Decode the committed small block `sblock`, whose code starts at bit
    /// `ptr` of the code buffer, back into its raw 64-bit window.
    pub(crate) fn read_block_word(&self, sblock: usize, ptr: usize) -> (w: u64)
        requires
            self.wf(),
            sblock < self.sb_classes.len(),
            ptr as int == offset_of(self.sb_classes@, sblock as int),
        ensures
            wseq(w) =~= block_seq(self@, sblock as int),
            forall|j: int| 0 <= j < 64 ==> #[trigger] u64_bit(w, j) == self@[64 * sblock + j],
    {
        let ghost s = self.bits@;
        let ghost m = self.sb_classes.len() as int;
        let cls = self.sb_classes[sblock];
        let width = self.tables.widths[cls as usize];
        let ghost q = block_seq(s, sblock as int);
        proof {
            lemma_offset_nonneg(self.sb_classes@, m);
            assert(offset_of(self.sb_classes@, sblock as int) + code_width(cls as int)
                == offset_of(self.sb_classes@, sblock as int + 1));
            assert(offset_of(self.sb_classes@, sblock as int + 1) <= offset_of(
                self.sb_classes@,
                m,
            ));
            lemma_count_subrange(s, 64 * (sblock as int), 64 * (sblock as int) + 64, 64, true);
            assert(count_bits(q, 64, true) == class_of(s, sblock as int));
            lemma_enc_bound(q, 64);
            lemma_enc_nonneg(q, 64);
            lemma_code_fits(cls as int);
            assert(code_stored(
                self.sb_indices.view(),
                offset_of(self.sb_classes@, sblock as int),
                enc_of(s, sblock as int),
                code_width(cls as int),
            ));
        }
        let code = self.sb_indices.get(ptr, width);
        proof {
            self.sb_indices.lemma_read_value(
                ptr as int,
                width as int,
                code,
                enc_of(s, sblock as int),
            );
            assert((code as int) < binom(64, cls as int));
        }
        let w = crate::enum_code::decode(code, cls, &self.tables);
        proof {
            lemma_roundtrip(q, 64);
            assert(wseq(w) =~= dec_seq(code as int, 64, cls as int));
            assert(dec_seq(enc_seq(q, 64), 64, count_bits(q, 64, true)) =~= Seq::new(
                64,
                |j: int| q[j],
            ));
            assert(wseq(w) =~= q);
            assert forall|j: int| 0 <= j < 64 implies #[trigger] u64_bit(w, j) == s[64 * sblock
                + j] by {
                assert(wseq(w)[j] == q[j]);
            }
        }
        w
    }

    /// Count of `bit` among the first `pos` bits of the sequence.
    #[verifier::rlimit(100)]
    pub fn rank(&self, pos: u64, bit: bool) -> (r: u64)
        requires
            self.wf(),
            pos as int <= self@.len(),
        ensures
            r as int == count_bits(self@, pos as int, bit),
    {
        let ghost s = self.bits@;
        let ghost n = s.len() as int;
        let p = pos as usize;
        let m = self.sb_classes.len();
        proof {
            lemma_count_nonneg(s, p as int, true);
            lemma_count_nonneg(s, p as int, false);
            lemma_count_complement(s, p as int);
            lemma_count_monotonic(s, 64 * (m as int), n, true);
            lemma_count_nonneg(s, 64 * (m as int), true);
        }
        let ones: usize = if p >= m * SMALL_BLOCK_SIZE {
            let tail_ones = count_in_word(self.last_block.bits, (p - m * SMALL_BLOCK_SIZE) as u64, true);
            proof {
                let t = p as int - 64 * (m as int);
                lemma_count_congruent(wseq(self.last_block.bits), s.subrange(64 * (m as int), n), t, true);
                lemma_count_subrange(s, 64 * (m as int), n, t, true);
            }
            self.num_ones - self.last_block.num_ones + (tail_ones as usize)
        } else {
            let lblock = p / LARGE_BLOCK_SIZE;
            proof {
                assert(1024 * (p as int / 1024) <= p as int);
                assert(16 * (lblock as int) < m as int);
                assert((m as int + 15) / 16 >= lblock as int + 1);
            }
            let pointer = self.large_blocks[lblock].pointer;
            let rank_l = self.large_blocks[lblock].rank;
            let sblock = p / SMALL_BLOCK_SIZE;
            let sb_start = lblock * SMALL_BLOCK_PER_LARGE_BLOCK;
            proof {
                assert(64 * (sblock as int) <= p as int);
                assert(64 * (16 * (lblock as int)) == 1024 * (lblock as int));
                assert(sb_start as int <= sblock as int);
                assert(64 * (m as int) <= n);
            }
            let (csum, wsum) = crate::rank_acceleration::scan_block(
                &self.sb_classes,
                &self.tables,
                sb_start,
                sblock,
            );
            proof {
                crate::rank_acceleration::lemma_class_sum_is_rank(s, self.sb_classes@, sblock as int);
                crate::rank_acceleration::lemma_class_sum_is_rank(s, self.sb_classes@, sb_start as int);
                lemma_count_monotonic(s, 1024 * (lblock as int), 64 * (sblock as int), true);
                lemma_count_nonneg(s, 1024 * (lblock as int), true);
                lemma_count_monotonic(s, 64 * (sblock as int), p as int, true);
                lemma_offset_nonneg(self.sb_classes@, m as int);
                assert(offset_of(self.sb_classes@, sblock as int) <= offset_of(
                    self.sb_classes@,
                    m as int,
                ));
                lemma_offset_nonneg(self.sb_classes@, 16 * (lblock as int));
            }
            let ptr = pointer + wsum;
            let word = self.read_block_word(sblock, ptr);
            let within = count_in_word(word, (p % SMALL_BLOCK_SIZE) as u64, true);
            proof {
                let t = p as int - 64 * (sblock as int);
                lemma_count_congruent(
                    wseq(word),
                    s.subrange(64 * (sblock as int), 64 * (sblock as int) + 64),
                    t,
                    true,
                );
                lemma_count_subrange(s, 64 * (sblock as int), 64 * (sblock as int) + 64, t, true);
            }
            rank_l + csum + (within as usize)
        };
        if bit {
            ones as u64
        } else {
            (p - ones) as u64
        }
    }

    /// Position of the occurrence of rank `k` of bit value `b`; `k` must be
    /// in range.
    #[verifier::rlimit(100)]
    fn select_impl(&self, k: usize, b: bool) -> (r: usize)
        requires
            self.wf(),
            (k as int) < count_bits(self@, self@.len() as int, b),
        ensures
            valid_sel(self@, k as int, b, r as int),
    {
        let ghost s = self.bits@;
        let ghost n = s.len() as int;
        let m = self.sb_classes.len();
        let ghost mi = m as int;
        let tail_count = if b {
            self.last_block.num_ones
        } else {
            self.last_block.num_zeros
        };
        let total = if b {
            self.num_ones
        } else {
            self.num_zeros
        };
        proof {
            lemma_count_monotonic(s, 64 * mi, n, b);
            lemma_count_nonneg(s, 64 * mi, b);
            lemma_count_nonneg(s, n, b);
        }
        let prefix = total - tail_count;
        if k >= prefix {
            let tail_len = self.len - m * SMALL_BLOCK_SIZE;
            proof {
                lemma_count_congruent(
                    wseq(self.last_block.bits),
                    s.subrange(64 * mi, n),
                    tail_len as int,
                    b,
                );
                lemma_count_subrange(s, 64 * mi, n, tail_len as int, b);
            }
            let t = select_in_word(self.last_block.bits, (k - prefix) as u64, b, tail_len as u64);
            proof {
                let ti = t as int;
                lemma_count_congruent(wseq(self.last_block.bits), s.subrange(64 * mi, n), ti, b);
                lemma_count_subrange(s, 64 * mi, n, ti, b);
            }
            m * SMALL_BLOCK_SIZE + (t as usize)
        } else {
            let j = k / SELECT_BLOCK_SIZE;
            proof {
                assert(1024 * (k as int / 1024) <= k as int);
                assert((j as int) < (total + 1023) as int / 1024);
            }
            let hint = if b {
                self.select_one_inds[j]
            } else {
                self.select_zero_inds[j]
            };
            let mut lblock = (hint as usize) / LARGE_BLOCK_SIZE;
            let large_len = self.large_blocks.len();
            proof {
                assert(valid_sel(s, 1024 * (j as int), b, hint as int));
                assert(1024 * ((hint as int) / 1024) <= hint as int);
                lemma_count_monotonic(s, 1024 * (lblock as int), hint as int, b);
                lemma_count_complement(s, 1024 * (lblock as int));
                assert(1024 * (lblock as int) <= hint as int);
                assert((hint as int) < n);
                assert(16 * ((mi + 15) / 16) <= mi + 15);
                assert(64 * mi <= n);
                assert((lblock as int) < (mi + 15) / 16);
            }
            loop
                invariant
                    self.wf(),
                    s == self.bits@,
                    n == s.len(),
                    mi == self.sb_classes.len(),
                    large_len == self.large_blocks.len(),
                    large_len as int == (mi + 15) / 16,
                    (lblock as int) < large_len as int,
                    count_bits(s, 1024 * (lblock as int), b) <= k as int,
                ensures
                    (lblock as int) < large_len as int,
                    count_bits(s, 1024 * (lblock as int), b) <= k as int,
                decreases large_len - lblock,
            {
                if lblock + 1 >= large_len {
                    break ;
                }
                proof {
                    assert(16 * (lblock as int + 1) <= 16 * (large_len as int - 1));
                    assert(16 * ((mi + 15) / 16) <= mi + 15);
                    assert(1024 * (lblock as int + 1) <= 64 * mi);
                    lemma_count_complement(s, 1024 * (lblock as int + 1));
                    lemma_count_nonneg(s, 1024 * (lblock as int + 1), true);
                    lemma_count_monotonic(s, 1024 * (lblock as int + 1), 64 * mi, true);
                }
                let e_rank = self.large_blocks[lblock + 1].rank;
                let nr = if b {
                    e_rank
                } else {
                    (lblock + 1) * LARGE_BLOCK_SIZE - e_rank
                };
                if nr > k {
                    break ;
                }
                lblock = lblock + 1;
            }
            let mut i = lblock * SMALL_BLOCK_PER_LARGE_BLOCK;
            proof {
                assert(16 * (lblock as int) <= 16 * (large_len as int - 1));
                assert(16 * ((mi + 15) / 16) <= mi + 15);
                assert(16 * (lblock as int) <= mi);
                lemma_count_nonneg(s, 1024 * (lblock as int), true);
                lemma_count_complement(s, 1024 * (lblock as int));
                assert(64 * (16 * (lblock as int)) == 1024 * (lblock as int));
            }
            let lb_rank = self.large_blocks[lblock].rank;
            let mut cur = if b {
                lb_rank
            } else {
                lblock * LARGE_BLOCK_SIZE - lb_rank
            };
            let mut ptr = self.large_blocks[lblock].pointer;
            proof {
                assert(16 * (lblock as int) <= mi);
                lemma_count_complement(s, 1024 * (lblock as int));
                assert(64 * (16 * (lblock as int)) == 1024 * (lblock as int));
                lemma_count_nonneg(s, 1024 * (lblock as int), true);
                lemma_count_monotonic(s, 1024 * (lblock as int), 64 * mi, true);
            }
            loop
                invariant
                    self.wf(),
                    s == self.bits@,
                    n == s.len(),
                    mi == self.sb_classes.len(),
                    (k as int) < count_bits(s, 64 * mi, b),
                    0 <= i as int <= mi,
                    cur as int == count_bits(s, 64 * (i as int), b),
                    cur <= k,
                    ptr as int == offset_of(self.sb_classes@, i as int),
                ensures
                    s == self.bits@,
                    (i as int) < mi,
                    cur as int == count_bits(s, 64 * (i as int), b),
                    cur <= k,
                    (k as int) < count_bits(s, 64 * (i as int) + 64, b),
                    ptr as int == offset_of(self.sb_classes@, i as int),
                decreases mi - i,
            {
                proof {
                    lemma_select_scan_in_range(s, mi, i as int, k as int, b);
                    lemma_count_complement(s, 64 * (i as int));
                    lemma_count_complement(s, 64 * (i as int) + 64);
                    lemma_count_monotonic(s, 64 * (i as int) + 64, 64 * mi, b);
                    lemma_count_nonneg(s, 64 * (i as int), true);
                    lemma_count_monotonic(s, 64 * (i as int), 64 * (i as int) + 64, true);
                }
                let cls = self.sb_classes[i];
                let bcls = if b {
                    cls as usize
                } else {
                    64 - (cls as usize)
                };
                if cur + bcls > k {
                    break ;
                }
                proof {
                    lemma_offset_nonneg(self.sb_classes@, mi);
                    lemma_code_fits(self.sb_classes[i as int] as int);
                    assert(offset_of(self.sb_classes@, i as int) + code_width(
                        self.sb_classes[i as int] as int,
                    ) == offset_of(self.sb_classes@, i as int + 1));
                    assert(offset_of(self.sb_classes@, i as int + 1) <= offset_of(
                        self.sb_classes@,
                        mi,
                    ));
                }
                cur = cur + bcls;
                ptr = ptr + (self.tables.widths[cls as usize] as usize);
                i = i + 1;
            }
            proof {
                lemma_count_complement(s, 64 * (i as int));
                lemma_count_complement(s, 64 * (i as int) + 64);
            }
            let word = self.read_block_word(i, ptr);
            proof {
                lemma_count_congruent(wseq(word), block_seq(s, i as int), 64, b);
                lemma_count_subrange(s, 64 * (i as int), 64 * (i as int) + 64, 64, b);
            }
            let t = select_in_word(word, (k - cur) as u64, b, 64);
            proof {
                let ti = t as int;
                lemma_count_congruent(wseq(word), block_seq(s, i as int), ti, b);
                lemma_count_subrange(s, 64 * (i as int), 64 * (i as int) + 64, ti, b);
            }
            i * SMALL_BLOCK_SIZE + (t as usize)
        }
    }

    /// Position of the `k`-th zero bit, if there are more than `k` zeros.
    pub fn select0(&self, k: u64) -> (r: Option<u64>)
        requires
            self.wf(),
        ensures
            r is Some <==> (k as int) < count_bits(self@, self@.len() as int, false),
            r is Some ==> valid_sel(self@, k as int, false, r->Some_0 as int),
    {
        if k >= self.num_zeros as u64 {
            None
        } else {
            let p = self.select_impl(k as usize, false);
            Some(p as u64)
        }
    }

    /// Position of the `k`-th one bit, if there are more than `k` ones.
    pub fn select1(&self, k: u64) -> (r: Option<u64>)
        requires
            self.wf(),
        ensures
            r is Some <==> (k as int) < count_bits(self@, self@.len() as int, true),
            r is Some ==> valid_sel(self@, k as int, true, r->Some_0 as int),
    {
        if k >= self.num_ones as u64 {
            None
        } else {
            let p = self.select_impl(k as usize, true);
            Some(p as u64)
        }
    }
}

/// During the small-block scan of a select query the cursor stays inside the
/// committed region: the sought occurrence lies before block `m`.
proof fn lemma_select_scan_in_range(s: Seq<bool>, m: int, i: int, k: int, b: bool)
    requires
        0 <= i <= m,
        count_bits(s, 64 * i, b) <= k,
        k < count_bits(s, 64 * m, b),
    ensures
        i < m,
{
    if i >= m {
        lemma_count_monotonic(s, 64 * m, 64 * i, b);
    }
}

} // verus!
