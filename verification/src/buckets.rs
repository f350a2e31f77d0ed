//! The discretisation of strength ranks into equity buckets.

use vstd::prelude::*;

verus! {

/// Number of equity buckets.
pub const BUCKETS: usize = 47;

/// The bound that ranks are normalised by: twice the number of hole pairs
/// that a five-card board leaves. Every rank on such a board is below it.
pub const MAX_RANK: u16 = 2162;

/// The most hole pairs that a five-card board leaves.
pub const BOARD_HANDS: usize = 1081;

/// The bucket of a rank: the rank as a fraction of `MAX_RANK`, scaled to the
/// number of buckets and rounded down.
pub open spec fn bucket(rank: u16) -> int {
    (rank * BUCKETS) / (MAX_RANK as int)
}

/// A table of strength ranks: every entry is below `MAX_RANK`.
pub open spec fn is_rank_table(table: Seq<u16>) -> bool {
    forall|i: int| 0 <= i < table.len() ==> #[trigger] table[i] < MAX_RANK
}

/// The bucket of `rank`.
pub fn bucket_of(rank: u16) -> (b: usize)
    ensures
        b == bucket(rank),
        rank < MAX_RANK ==> b < BUCKETS,
{
    let scaled: u32 = rank as u32 * 47;
    (scaled / 2162) as usize
}

} // verus!
