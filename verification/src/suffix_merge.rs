//! Sorting the entries of the suffix array by merging.

use vstd::prelude::*;
use vstd::seq_lib::{lemma_multiset_commutative, to_multiset_build};
use crate::suffix_sort::{in_order, rank_lt, sorted_by_rank, Suffix};

verus! {

/// Merges two sorted runs of entries into one; of entries with equal rank
/// pairs those of the first run come first.
fn merge(left: &Vec<Suffix>, right: &Vec<Suffix>) -> (out: Vec<Suffix>)
    requires
        sorted_by_rank(left@),
        sorted_by_rank(right@),
        left@.len() + right@.len() <= usize::MAX,
    ensures
        out@.to_multiset() == left@.to_multiset().add(right@.to_multiset()),
        out@.len() == left@.len() + right@.len(),
        sorted_by_rank(out@),
{
    let mut out: Vec<Suffix> = Vec::new();
    let mut i: usize = 0;
    let mut j: usize = 0;
    proof {
        assert(left@.take(0) =~= Seq::<Suffix>::empty());
        assert(right@.take(0) =~= Seq::<Suffix>::empty());
        lemma_multiset_commutative(left@.take(0), right@.take(0));
        assert(left@.take(0) + right@.take(0) =~= out@);
    }
    while i < left.len() || j < right.len()
        invariant
            i <= left@.len(),
            j <= right@.len(),
            left@.len() + right@.len() <= usize::MAX,
            out@.len() == i + j,
            sorted_by_rank(left@),
            sorted_by_rank(right@),
            sorted_by_rank(out@),
            out@.to_multiset() == left@.take(i as int).to_multiset().add(
                right@.take(j as int).to_multiset(),
            ),
            out@.len() > 0 && i < left@.len() ==> !rank_lt(left@[i as int].rank, out@.last().rank),
            out@.len() > 0 && j < right@.len() ==> !rank_lt(
                right@[j as int].rank,
                out@.last().rank,
            ),
        decreases left@.len() + right@.len() - i - j,
    {
        let ghost before = out@;
        let from_left: bool = if i >= left.len() {
            false
        } else if j >= right.len() {
            true
        } else {
            in_order(&left[i], &right[j])
        };
        if from_left {
            let next: Suffix = left[i];
            proof {
                to_multiset_build(before, next);
                to_multiset_build(left@.take(i as int), next);
                assert(left@.take(i + 1) =~= left@.take(i as int).push(next));
                if i + 1 < left@.len() {
                    assert(!rank_lt(left@[i + 1].rank, left@[i as int].rank));
                }
            }
            out.push(next);
            i = i + 1;
        } else {
            let next: Suffix = right[j];
            proof {
                to_multiset_build(before, next);
                to_multiset_build(right@.take(j as int), next);
                assert(right@.take(j + 1) =~= right@.take(j as int).push(next));
                if j + 1 < right@.len() {
                    assert(!rank_lt(right@[j + 1].rank, right@[j as int].rank));
                }
            }
            out.push(next);
            j = j + 1;
        }
        proof {
            assert forall|a: int, b: int| 0 <= a < b < out@.len() implies !rank_lt(
                (#[trigger] out@[b]).rank,
                (#[trigger] out@[a]).rank,
            ) by {
                if b == out@.len() - 1 {
                    if a < before.len() - 1 {
                        assert(!rank_lt(before[before.len() - 1].rank, before[a].rank));
                    }
                    assert(out@[a] == before[a]);
                } else {
                    assert(out@[a] == before[a] && out@[b] == before[b]);
                }
            }
        }
    }
    proof {
        assert(left@.take(left@.len() as int) =~= left@);
        assert(right@.take(right@.len() as int) =~= right@);
    }
    out
}

/// The entries of `array` from `lo` up to `hi`, sorted by rank pair.
fn sorted_run(array: &Vec<Suffix>, lo: usize, hi: usize) -> (out: Vec<Suffix>)
    requires
        lo <= hi <= array@.len(),
    ensures
        out@.to_multiset() == array@.subrange(lo as int, hi as int).to_multiset(),
        out@.len() == hi - lo,
        sorted_by_rank(out@),
    decreases hi - lo,
{
    if hi - lo <= 1 {
        let mut out: Vec<Suffix> = Vec::new();
        if hi > lo {
            out.push(array[lo]);
        }
        assert(out@ =~= array@.subrange(lo as int, hi as int));
        out
    } else {
        let mid: usize = lo + (hi - lo) / 2;
        let left: Vec<Suffix> = sorted_run(array, lo, mid);
        let right: Vec<Suffix> = sorted_run(array, mid, hi);
        proof {
            lemma_multiset_commutative(
                array@.subrange(lo as int, mid as int),
                array@.subrange(mid as int, hi as int),
            );
            assert(array@.subrange(lo as int, mid as int) + array@.subrange(mid as int, hi as int)
                =~= array@.subrange(lo as int, hi as int));
        }
        merge(&left, &right)
    }
}

/// Sorts the entries by rank pair; entries with equal rank pairs keep their
/// order. No entry is lost and none is added.
pub(crate) fn sort_suffixes(array: &mut Vec<Suffix>)
    ensures
        final(array)@.to_multiset() == old(array)@.to_multiset(),
        final(array)@.len() == old(array)@.len(),
        sorted_by_rank(final(array)@),
{
    let sorted: Vec<Suffix> = sorted_run(array, 0, array.len());
    proof {
        assert(array@.subrange(0, array@.len() as int) =~= array@);
    }
    *array = sorted;
}

} // verus!
