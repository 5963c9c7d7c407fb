//! The bounded linear scan that rank, select and the seeking iterator run
//! inside one large block: summing popcount classes and code widths over a
//! run of small blocks.
use vstd::prelude::*;
use crate::model::count_bits;
use crate::binomial::offset_of;
use crate::binomial::Tables;
use crate::binomial::lemma_code_fits;
use crate::dict::class_of;

verus! {

/// Sum of the popcount classes of the first `i` committed blocks.
pub open spec fn class_sum(classes: Seq<u8>, i: int) -> int
    decreases i,
{
    if i <= 0 {
        0
    } else {
        class_sum(classes, i - 1) + classes[i - 1] as int
    }
}

/// When each stored class is the true popcount of its block, the class sums
/// are exactly the one-counts at block boundaries.
pub proof fn lemma_class_sum_is_rank(s: Seq<bool>, classes: Seq<u8>, i: int)
    requires
        0 <= i,
        forall|j: int| 0 <= j < i ==> #[trigger] classes[j] as int == class_of(s, j),
    ensures
        class_sum(classes, i) == count_bits(s, 64 * i, true),
    decreases i,
{
    if i > 0 {
        lemma_class_sum_is_rank(s, classes, i - 1);
        assert(classes[i - 1] as int == class_of(s, i - 1));
    } else {
        assert(count_bits(s, 0, true) == 0);
    }
}

pub proof fn lemma_class_sum_bound(classes: Seq<u8>, i: int)
    requires
        0 <= i,
        forall|j: int| 0 <= j < i ==> #[trigger] classes[j] <= 64,
    ensures
        0 <= class_sum(classes, i) <= 64 * i,
    decreases i,
{
    if i > 0 {
        lemma_class_sum_bound(classes, i - 1);
    }
}

/// Scan the small blocks `[start, end)`, accumulating their one-counts and
/// the total width of their stored codes.
pub fn scan_block(classes: &Vec<u8>, tables: &Tables, start: usize, end: usize) -> (r: (
    usize,
    usize,
))
    requires
        tables.wf(),
        start <= end <= classes.len(),
        forall|j: int| 0 <= j < classes.len() ==> #[trigger] classes[j] <= 64,
        64 * classes.len() <= usize::MAX,
    ensures
        r.0 as int == class_sum(classes@, end as int) - class_sum(classes@, start as int),
        r.1 as int == offset_of(classes@, end as int) - offset_of(classes@, start as int),
{
    let mut csum: usize = 0;
    let mut wsum: usize = 0;
    let mut i: usize = start;
    proof {
        crate::binomial::lemma_offset_bound(classes@, start as int);
        crate::binomial::lemma_offset_bound(classes@, end as int);
        lemma_class_sum_bound(classes@, start as int);
        lemma_class_sum_bound(classes@, end as int);
    }
    while i < end
        invariant
            tables.wf(),
            start <= i <= end <= classes.len(),
            forall|j: int| 0 <= j < classes.len() ==> #[trigger] classes[j] <= 64,
            64 * classes.len() <= usize::MAX,
            csum as int == class_sum(classes@, i as int) - class_sum(classes@, start as int),
            wsum as int == offset_of(classes@, i as int) - offset_of(classes@, start as int),
        decreases end - i,
    {
        let c = classes[i];
        proof {
            lemma_class_sum_bound(classes@, start as int);
            lemma_class_sum_bound(classes@, i as int + 1);
            crate::binomial::lemma_offset_bound(classes@, start as int);
            crate::binomial::lemma_offset_bound(classes@, i as int + 1);
            lemma_code_fits(c as int);
        }
        csum = csum + (c as usize);
        wsum = wsum + (tables.widths[c as usize] as usize);
        i = i + 1;
    }
    (csum, wsum)
}

} // verus!
