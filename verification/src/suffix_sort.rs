//! The entries that the suffix array is built from, and their sorting by rank.

use vstd::prelude::*;
use std::cmp::Ordering;

verus! {

/// A suffix during construction: where it starts, and the pair of ranks that
/// stands for its leading symbols.
#[derive(Clone, Copy)]
pub(crate) struct Suffix {
    pub index: usize,
    pub rank: (i64, i64),
}

/// Rank pairs are ordered by their first rank, then by their second.
pub(crate) open spec fn rank_lt(x: (i64, i64), y: (i64, i64)) -> bool {
    x.0 < y.0 || (x.0 == y.0 && x.1 < y.1)
}

/// No entry has a smaller rank pair than an entry before it.
pub(crate) open spec fn sorted_by_rank(arr: Seq<Suffix>) -> bool {
    forall|a: int, b: int|
        0 <= a < b < arr.len() ==> !rank_lt((#[trigger] arr[b]).rank, (#[trigger] arr[a]).rank)
}

/// Compares two entries by their rank pairs.
pub(crate) fn suffix_compare(a: &Suffix, b: &Suffix) -> (o: Ordering)
    ensures
        o == Ordering::Less <==> rank_lt(a.rank, b.rank),
        o == Ordering::Equal <==> a.rank == b.rank,
        o == Ordering::Greater <==> rank_lt(b.rank, a.rank),
{
    if a.rank.0 == b.rank.0 {
        if a.rank.1 < b.rank.1 {
            Ordering::Less
        } else if a.rank.1 == b.rank.1 {
            Ordering::Equal
        } else {
            Ordering::Greater
        }
    } else if a.rank.0 < b.rank.0 {
        Ordering::Less
    } else {
        Ordering::Greater
    }
}

/// Whether entry `a` may stand before entry `b`.
pub(crate) fn in_order(a: &Suffix, b: &Suffix) -> (yes: bool)
    ensures
        yes == !rank_lt(b.rank, a.rank),
{
    match suffix_compare(a, b) {
        Ordering::Greater => false,
        _ => true,
    }
}

} // verus!
