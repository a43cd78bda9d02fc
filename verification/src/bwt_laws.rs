//! Why the inverse Burrows-Wheeler transform undoes the transform.
//!
//! A step of the walk leads from the row of a suffix to the row of the suffix
//! that begins one byte earlier. So the walk from row 0, the row of the empty
//! suffix, meets the bytes of the block from the last to the first.

use vstd::prelude::*;
use vstd::relations::total_ordering;
use crate::bwt::{
    bw_forward, bw_inverse, bwt_column, lemma_lf_range, lemma_occ_monotone,
    lemma_smaller_monotone, lf, occ_before, row_at, row_of, smaller, suffix_array_of, walk_ok,
};
use crate::suffix_order::{
    is_suffix_array, lemma_suffix_array_first, lemma_suffix_total, lemma_suffix_transitive,
    occurs, suffix_lt,
};

verus! {

/// An order of all numbers that orders the starts of the suffixes of `t` as
/// the suffixes, and puts every other number after them.
spec fn start_le(t: Seq<u8>) -> spec_fn(usize, usize) -> bool {
    |x: usize, y: usize|
        if x <= t.len() && y <= t.len() {
            x == y || suffix_lt(t, x as int, y as int)
        } else if x <= t.len() {
            true
        } else if y <= t.len() {
            false
        } else {
            x <= y
        }
}

proof fn lemma_start_le_total(t: Seq<u8>)
    ensures
        total_ordering(start_le(t)),
{
    let leq = start_le(t);
    assert forall|x: usize, y: usize| #[trigger] leq(x, y) && leq(y, x) implies x == y by {
        if x <= t.len() && y <= t.len() {
            lemma_suffix_total(t, x as int, y as int);
        }
    }
    assert forall|x: usize, y: usize, z: usize| #[trigger]
        leq(x, y) && #[trigger] leq(y, z) implies leq(x, z) by {
        if x <= t.len() && y <= t.len() && z <= t.len() && x != y && y != z {
            lemma_suffix_transitive(t, x as int, y as int, z as int);
        }
    }
    assert forall|x: usize, y: usize| #[trigger] leq(x, y) || #[trigger] leq(y, x) by {
        if x <= t.len() && y <= t.len() {
            lemma_suffix_total(t, x as int, y as int);
        }
    }
}

/// Every text that fits in memory has a suffix array.
pub proof fn lemma_suffix_array_exists(t: Seq<u8>)
    requires
        t.len() <= usize::MAX,
    ensures
        is_suffix_array(t, suffix_array_of(t)),
{
    let leq = start_le(t);
    let starts = Seq::new(t.len() + 1, |i: int| i as usize);
    let sa = starts.sort_by(leq);
    lemma_start_le_total(t);
    starts.lemma_sort_by_ensures(leq);
    starts.to_multiset_ensures();
    sa.to_multiset_ensures();
    assert(starts.no_duplicates());
    starts.lemma_multiset_has_no_duplicates();
    sa.lemma_multiset_has_no_duplicates_conv();
    assert forall|a: int| 0 <= a < sa.len() implies #[trigger] sa[a] <= t.len() by {
        assert(sa.contains(sa[a]));
        assert(sa.to_multiset().count(sa[a]) > 0);
        assert(starts.to_multiset().count(sa[a]) > 0);
        assert(starts.contains(sa[a]));
    }
    assert forall|a: int, b: int| 0 <= a < b < sa.len() implies suffix_lt(
        t,
        #[trigger] sa[a] as int,
        #[trigger] sa[b] as int,
    ) by {
        assert(leq(sa[a], sa[b]));
        assert(sa[a] != sa[b]);
    }
    assert forall|p: int| 0 <= p <= t.len() implies #[trigger] occurs(sa, p) by {
        assert(starts[p] == p);
        assert(starts.contains(p as usize));
        assert(starts.to_multiset().count(p as usize) > 0);
        assert(sa.to_multiset().count(p as usize) > 0);
        assert(sa.contains(p as usize));
        let a = choose|a: int| 0 <= a < sa.len() && sa[a] == p as usize;
        assert(sa[a] == p);
    }
    assert(is_suffix_array(t, sa));
}

/// Every suffix stands in one row of a suffix array.
pub proof fn lemma_row_of(t: Seq<u8>, sa: Seq<usize>, p: int)
    requires
        is_suffix_array(t, sa),
        0 <= p <= t.len(),
    ensures
        0 <= row_of(sa, p) <= t.len(),
        sa[row_of(sa, p)] == p,
        forall|a: int| 0 <= a < sa.len() && sa[a] == p ==> a == row_of(sa, p),
{
    assert(occurs(sa, p));
    let r = row_of(sa, p);
    assert forall|a: int| 0 <= a < sa.len() && sa[a] == p implies a == r by {
        lemma_suffix_total(t, p, p);
        if a < r {
            assert(suffix_lt(t, sa[a] as int, sa[r] as int));
        } else if r < a {
            assert(suffix_lt(t, sa[r] as int, sa[a] as int));
        }
    }
}

/// A row with a smaller byte, or with the same byte further up, leads to an
/// earlier row.
proof fn lemma_lf_monotone(block: Seq<u8>, end: int, i: int, j: int)
    requires
        0 <= end < block.len(),
        0 <= i < block.len(),
        0 <= j < block.len(),
        i != end,
        j != end,
        block[i] < block[j] || (block[i] == block[j] && i < j),
    ensures
        lf(block, end, i) < lf(block, end, j),
{
    let c = block[i];
    let m = block.len() as int;
    assert(occ_before(block, end, c, i + 1) == occ_before(block, end, c, i) + 1);
    if block[i] < block[j] {
        lemma_occ_monotone(block, end, c, i + 1, m);
        assert(smaller(block, end, c + 1) == smaller(block, end, c as int) + occ_before(
            block,
            end,
            c,
            m,
        ));
        lemma_smaller_monotone(block, end, c + 1, block[j] as int);
    } else {
        lemma_occ_monotone(block, end, c, i + 1, j);
    }
}

/// The row of the suffix that begins one byte after the suffix of row `r`.
spec fn next_row(sa: Seq<usize>, r: int) -> int {
    row_of(sa, sa[r] + 1)
}

proof fn lemma_next_row(t: Seq<u8>, sa: Seq<usize>, r: int)
    requires
        is_suffix_array(t, sa),
        1 <= r <= t.len(),
    ensures
        sa[r] < t.len(),
        0 <= next_row(sa, r) <= t.len(),
        sa[next_row(sa, r)] == sa[r] + 1,
        next_row(sa, r) != row_of(sa, 0),
        bwt_column(t, sa)[next_row(sa, r)] == t[sa[r] as int],
{
    lemma_suffix_array_first(t, sa);
    lemma_row_of(t, sa, t.len() as int);
    assert(sa[r] <= t.len());
    lemma_row_of(t, sa, sa[r] + 1);
    lemma_row_of(t, sa, 0);
}

/// The rows of the suffixes that begin one byte after the suffixes of two
/// rows stand, by their bytes and then by their places, as the two rows do.
proof fn lemma_next_row_monotone(t: Seq<u8>, sa: Seq<usize>, r1: int, r2: int)
    requires
        is_suffix_array(t, sa),
        1 <= r1 < r2 <= t.len(),
    ensures
        ({
            let block = bwt_column(t, sa);
            let i = next_row(sa, r1);
            let j = next_row(sa, r2);
            block[i] < block[j] || (block[i] == block[j] && i < j)
        }),
{
    lemma_next_row(t, sa, r1);
    lemma_next_row(t, sa, r2);
    let i = next_row(sa, r1);
    let j = next_row(sa, r2);
    assert(suffix_lt(t, sa[r1] as int, sa[r2] as int));
    if t[sa[r1] as int] == t[sa[r2] as int] {
        assert(suffix_lt(t, sa[i] as int, sa[j] as int));
        lemma_suffix_total(t, sa[i] as int, sa[j] as int);
        if j < i {
            assert(suffix_lt(t, sa[j] as int, sa[i] as int));
        }
    }
}

proof fn lemma_lf_next_lower(t: Seq<u8>, sa: Seq<usize>, r: int)
    requires
        is_suffix_array(t, sa),
        1 <= r <= t.len(),
    ensures
        lf(bwt_column(t, sa), row_of(sa, 0), next_row(sa, r)) >= r,
    decreases r,
{
    let block = bwt_column(t, sa);
    let end = row_of(sa, 0);
    lemma_row_of(t, sa, 0);
    lemma_next_row(t, sa, r);
    lemma_lf_range(block, end, next_row(sa, r));
    if r > 1 {
        lemma_lf_next_lower(t, sa, r - 1);
        lemma_next_row(t, sa, r - 1);
        lemma_next_row_monotone(t, sa, r - 1, r);
        lemma_lf_monotone(block, end, next_row(sa, r - 1), next_row(sa, r));
    }
}

proof fn lemma_lf_next_upper(t: Seq<u8>, sa: Seq<usize>, r: int)
    requires
        is_suffix_array(t, sa),
        1 <= r <= t.len(),
    ensures
        lf(bwt_column(t, sa), row_of(sa, 0), next_row(sa, r)) <= r,
    decreases t.len() - r,
{
    let block = bwt_column(t, sa);
    let end = row_of(sa, 0);
    lemma_row_of(t, sa, 0);
    lemma_next_row(t, sa, r);
    lemma_lf_range(block, end, next_row(sa, r));
    if r < t.len() {
        lemma_lf_next_upper(t, sa, r + 1);
        lemma_next_row(t, sa, r + 1);
        lemma_next_row_monotone(t, sa, r, r + 1);
        lemma_lf_monotone(block, end, next_row(sa, r), next_row(sa, r + 1));
    }
}

/// A step of the walk leads from the row of a suffix to the row of the suffix
/// that begins one byte earlier.
pub proof fn lemma_lf_step(t: Seq<u8>, sa: Seq<usize>, i: int)
    requires
        is_suffix_array(t, sa),
        0 <= i <= t.len(),
        sa[i] != 0,
    ensures
        0 <= lf(bwt_column(t, sa), row_of(sa, 0), i) <= t.len(),
        sa[lf(bwt_column(t, sa), row_of(sa, 0), i)] == sa[i] - 1,
{
    let r = row_of(sa, sa[i] - 1);
    assert(sa[i] <= t.len());
    lemma_row_of(t, sa, sa[i] - 1);
    lemma_row_of(t, sa, sa[i] as int);
    lemma_suffix_array_first(t, sa);
    assert(r != 0);
    assert(next_row(sa, r) == i);
    lemma_lf_next_lower(t, sa, r);
    lemma_lf_next_upper(t, sa, r);
}

/// After `s` steps the walk stands in the row of the suffix of the last `s`
/// bytes.
pub proof fn lemma_walk_rows(t: Seq<u8>, sa: Seq<usize>, s: nat)
    requires
        is_suffix_array(t, sa),
        s <= t.len(),
    ensures
        0 <= row_at(bwt_column(t, sa), row_of(sa, 0), s) <= t.len(),
        sa[row_at(bwt_column(t, sa), row_of(sa, 0), s)] == t.len() - s,
    decreases s,
{
    if s == 0 {
        lemma_suffix_array_first(t, sa);
    } else {
        lemma_walk_rows(t, sa, (s - 1) as nat);
        lemma_lf_step(t, sa, row_at(bwt_column(t, sa), row_of(sa, 0), (s - 1) as nat));
    }
}

/// The inverse transform reads the block back from its column in the order of
/// any suffix array of the block and the row of the whole block.
pub proof fn lemma_inverse_of_column(t: Seq<u8>, sa: Seq<usize>)
    requires
        is_suffix_array(t, sa),
    ensures
        bw_inverse(bwt_column(t, sa), row_of(sa, 0)) == Some(t),
{
    let block = bwt_column(t, sa);
    let end = row_of(sa, 0);
    lemma_row_of(t, sa, 0);
    assert forall|s: nat| s < t.len() implies #[trigger] row_at(block, end, s) != end by {
        lemma_walk_rows(t, sa, s);
    }
    assert(walk_ok(block, end, t.len()));
    let back = bw_inverse(block, end)->0;
    assert forall|m: int| 0 <= m < t.len() implies back[m] == t[m] by {
        lemma_walk_rows(t, sa, (t.len() - 1 - m) as nat);
    }
    assert(back =~= t);
}

/// The inverse transform of the transform of every block is the block.
pub proof fn lemma_bwt_round_trip(t: Seq<u8>)
    requires
        t.len() < usize::MAX,
    ensures
        bw_inverse(bw_forward(t).0, bw_forward(t).1) == Some(t),
{
    if t.len() == 0 {
        assert(t =~= Seq::<u8>::empty());
    } else {
        lemma_suffix_array_exists(t);
        lemma_inverse_of_column(t, suffix_array_of(t));
    }
}

} // verus!
