//! A succinct rank/select dictionary: a compressed bit sequence supporting
//! append, rank, select and set-bit iteration in near-constant time.
//!
//! Each committed 64-bit block is stored as its popcount class plus an
//! enumerative (combinatorial-number-system) offset code in a bit-packed
//! buffer; periodic large-block checkpoints and sampled select directories
//! accelerate queries.
pub mod binomial;
pub mod bit_packed;
pub mod dict;
pub mod enum_code;
pub mod iter;
pub mod laws;
pub mod model;
pub mod rank_acceleration;
pub mod word;

pub use dict::RsDict;
pub use iter::RsDictIterator;
pub use model::count_bits;
pub use model::ones_list;
pub use model::valid_sel;
