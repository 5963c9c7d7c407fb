//! The bit-packed code buffer: an append-only sequence of bits backed by an
//! array of 64-bit words, read back as variable-width unsigned values.
use vstd::prelude::*;
use vstd::arithmetic::power2::pow2;
use crate::model::u64_bit;
use crate::model::nth_bit;
use crate::model::lemma_value_from_bits;
use crate::word::get_bit;
use crate::word::lemma_set_bit;

verus! {

/// Append-only physical storage for all compressed small-block codes.
pub struct BitPackedBuffer {
    pub words: Vec<u64>,
    pub bit_length: usize,
}

impl BitPackedBuffer {
    /// The stored bits, in push order.
    pub open spec fn view(&self) -> Seq<bool> {
        Seq::new(self.bit_length as nat, |p: int| u64_bit(self.words[p / 64], p % 64))
    }

    pub open spec fn wf(&self) -> bool {
        &&& self.words.len() == (self.bit_length + 63) / 64
        &&& forall|t: int|
            self.bit_length <= t < self.words.len() * 64 ==> !#[trigger] u64_bit(
                self.words[t / 64],
                t % 64,
            )
    }

    pub fn new() -> (r: BitPackedBuffer)
        ensures
            r.wf(),
            r.view() =~= Seq::empty(),
    {
        BitPackedBuffer { words: Vec::new(), bit_length: 0 }
    }

    /// Append one bit.
    pub fn push_bit(&mut self, b: bool)
        requires
            old(self).wf(),
            old(self).bit_length + 64 < usize::MAX,
        ensures
            final(self).wf(),
            final(self).view() =~= old(self).view().push(b),
            final(self).bit_length == old(self).bit_length + 1,
    {
        let ghost pre = *self;
        let word_ix = self.bit_length / 64;
        let bit_ix = (self.bit_length % 64) as u64;
        if self.bit_length % 64 == 0 {
            self.words.push(0);
            proof {
                assert forall|tb: int| 0 <= tb < 64 implies !u64_bit(0u64, tb) by {
                    vstd::arithmetic::power2::lemma_pow2_pos(tb as nat);
                }
            }
        }
        if b {
            let w = self.words[word_ix];
            proof {
                lemma_set_bit(w, bit_ix);
            }
            self.words.set(word_ix, w | (1u64 << bit_ix));
        }
        self.bit_length = self.bit_length + 1;
        proof {
            assert forall|p: int| 0 <= p < pre.bit_length implies u64_bit(
                self.words[p / 64],
                p % 64,
            ) == pre.view()[p] by {
                assert(0 <= p / 64 < self.words.len());
                assert(p / 64 <= word_ix);
            }
            assert(self.view()[pre.bit_length as int] == b);
            assert(self.view() =~= pre.view().push(b));
        }
    }

    /// Append the low `width` bits of `value`.
    pub fn push(&mut self, value: u64, width: u8)
        requires
            old(self).wf(),
            width <= 64,
            old(self).bit_length + 128 < usize::MAX,
        ensures
            final(self).wf(),
            final(self).view() =~= old(self).view() + Seq::new(
                width as nat,
                |j: int| u64_bit(value, j),
            ),
            final(self).bit_length == old(self).bit_length + width,
    {
        let ghost pre = *self;
        let mut j: u8 = 0;
        while j < width
            invariant
                self.wf(),
                j <= width <= 64,
                self.bit_length == pre.bit_length + j,
                pre.bit_length + 128 < usize::MAX,
                self.view() =~= pre.view() + Seq::new(j as nat, |t: int| u64_bit(value, t)),
            decreases width - j,
        {
            self.push_bit(get_bit(value, j as u64));
            j = j + 1;
        }
    }

    /// Read `width` bits starting at bit offset `offset` as one value.
    pub fn get(&self, offset: usize, width: u8) -> (r: u64)
        requires
            self.wf(),
            width <= 64,
            offset + width <= self.bit_length,
        ensures
            forall|j: int| 0 <= j < width ==> #[trigger] u64_bit(r, j) == self.view()[offset + j],
            forall|j: int| width <= j < 64 ==> !#[trigger] u64_bit(r, j),
    {
        let mut r: u64 = 0;
        let mut j: u8 = 0;
        proof {
            assert forall|tb: int| 0 <= tb < 64 implies !u64_bit(0u64, tb) by {
                vstd::arithmetic::power2::lemma_pow2_pos(tb as nat);
            }
        }
        while j < width
            invariant
                self.wf(),
                j <= width <= 64,
                offset + width <= self.bit_length,
                forall|t: int| 0 <= t < j ==> #[trigger] u64_bit(r, t) == self.view()[offset + t],
                forall|t: int| j <= t < 64 ==> !#[trigger] u64_bit(r, t),
            decreases width - j,
        {
            let p = offset + (j as usize);
            let bit = get_bit(self.words[p / 64], (p % 64) as u64);
            proof {
                assert(p / 64 < self.words.len());
                assert(bit == self.view()[p as int]);
            }
            if bit {
                proof {
                    lemma_set_bit(r, j as u64);
                }
                r = r | (1u64 << (j as u64));
            }
            j = j + 1;
        }
        r
    }

    /// A value written whole is read back whole: the contract callers use to
    /// recover a stored offset code.
    pub proof fn lemma_read_value(&self, offset: int, width: int, r: u64, v: int)
        requires
            0 <= offset,
            0 <= width <= 64,
            offset + width <= self.view().len(),
            0 <= v < pow2(width as nat),
            forall|j: int| 0 <= j < width ==> self.view()[offset + j] == nth_bit(v, j),
            forall|j: int| 0 <= j < width ==> #[trigger] u64_bit(r, j) == self.view()[offset + j],
            forall|j: int| width <= j < 64 ==> !#[trigger] u64_bit(r, j),
        ensures
            r as int == v,
    {
        lemma_value_from_bits(r, v, width);
    }
}

} // verus!
