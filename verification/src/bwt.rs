//! The Burrows-Wheeler transform of a block and its inverse.
//!
//! The transform lists, for every suffix of the block in sorted order, the
//! byte that stands before the suffix. The row of the whole block has no such
//! byte; it holds a filler, and its index is kept beside the column.

use vstd::prelude::*;
use crate::suffix_order::{
    is_suffix_array, lemma_suffix_array_unique, lemma_suffix_irreflexive, occurs,
};
use crate::suffixarray::SuffixArray;

verus! {

/// The byte that fills the row of the whole block.
pub const FILLER: u8 = 36;

/// A transformed block: the column of bytes, and the row of the filler.
#[derive(Debug, PartialEq, Eq)]
pub struct BwVec {
    pub block: Vec<u8>,
    pub end_index: u32,
}

/// The suffix array of `t`.
pub open spec fn suffix_array_of(t: Seq<u8>) -> Seq<usize> {
    choose|sa: Seq<usize>| is_suffix_array(t, sa)
}

/// The row of `sa` that holds the suffix from `p`.
pub open spec fn row_of(sa: Seq<usize>, p: int) -> int {
    choose|a: int| 0 <= a < sa.len() && sa[a] == p
}

/// The column of bytes that stand before the suffixes in the order of `sa`.
pub open spec fn bwt_column(t: Seq<u8>, sa: Seq<usize>) -> Seq<u8> {
    Seq::new(
        sa.len(),
        |i: int|
            if sa[i] == 0 {
                FILLER
            } else {
                t[sa[i] - 1]
            },
    )
}

/// The transform of `t`: its column and the row of the filler. The empty
/// block has an empty column.
pub open spec fn bw_forward(t: Seq<u8>) -> (Seq<u8>, int) {
    if t.len() == 0 {
        (Seq::empty(), 0)
    } else {
        (bwt_column(t, suffix_array_of(t)), row_of(suffix_array_of(t), 0))
    }
}

/// How many rows before row `i`, the row `end` not counted, hold the byte `c`.
pub open spec fn occ_before(block: Seq<u8>, end: int, c: u8, i: int) -> nat
    decreases i,
{
    if i <= 0 {
        0
    } else {
        occ_before(block, end, c, i - 1) + if i - 1 != end && block[i - 1] == c {
            1nat
        } else {
            0nat
        }
    }
}

/// How many rows, the row `end` not counted, hold a byte below `c`.
pub open spec fn smaller(block: Seq<u8>, end: int, c: int) -> nat
    decreases c,
{
    if c <= 0 {
        0
    } else {
        smaller(block, end, c - 1) + occ_before(block, end, (c - 1) as u8, block.len() as int)
    }
}

/// The row of the suffix that begins one byte before the suffix of row `i`:
/// the rows are counted that hold a smaller byte, or the same byte further up,
/// and one more for the empty suffix.
pub open spec fn lf(block: Seq<u8>, end: int, i: int) -> int {
    (1 + smaller(block, end, block[i] as int) + occ_before(block, end, block[i], i)) as int
}

/// The row reached from row 0 in `s` steps.
pub open spec fn row_at(block: Seq<u8>, end: int, s: nat) -> int
    decreases s,
{
    if s == 0 {
        0
    } else {
        lf(block, end, row_at(block, end, (s - 1) as nat))
    }
}

/// The first `steps` rows of the walk are not the row of the filler.
pub open spec fn walk_ok(block: Seq<u8>, end: int, steps: nat) -> bool {
    forall|s: nat| s < steps ==> #[trigger] row_at(block, end, s) != end
}

/// The block that a column and the row of its filler come from: the bytes met
/// on the walk from row 0, last byte first. There is none where the row is
/// outside the column or the walk meets the filler.
pub open spec fn bw_inverse(block: Seq<u8>, end: int) -> Option<Seq<u8>> {
    if block.len() == 0 {
        Some(Seq::empty())
    } else if !(0 <= end < block.len()) || !walk_ok(block, end, (block.len() - 1) as nat) {
        None
    } else {
        Some(
            Seq::new(
                (block.len() - 1) as nat,
                |m: int| block[row_at(block, end, (block.len() - 2 - m) as nat)],
            ),
        )
    }
}

pub proof fn lemma_occ_monotone(block: Seq<u8>, end: int, c: u8, i: int, j: int)
    requires
        i <= j,
    ensures
        occ_before(block, end, c, i) <= occ_before(block, end, c, j),
    decreases j - i,
{
    if i < j {
        lemma_occ_monotone(block, end, c, i, j - 1);
    }
}

pub proof fn lemma_smaller_monotone(block: Seq<u8>, end: int, c: int, d: int)
    requires
        c <= d,
    ensures
        smaller(block, end, c) <= smaller(block, end, d),
    decreases d - c,
{
    if c < d {
        lemma_smaller_monotone(block, end, c, d - 1);
    }
}

/// The rows before row `i` that hold a byte below `c`, the row `end` not counted.
spec fn smaller_before(block: Seq<u8>, end: int, c: int, i: int) -> nat
    decreases c,
{
    if c <= 0 {
        0
    } else {
        smaller_before(block, end, c - 1, i) + occ_before(block, end, (c - 1) as u8, i)
    }
}

proof fn lemma_smaller_before_step(block: Seq<u8>, end: int, c: int, i: int)
    requires
        0 <= c <= 256,
        i >= 1,
    ensures
        smaller_before(block, end, c, i) == smaller_before(block, end, c, i - 1) + if i - 1 != end
            && block[i - 1] < c {
            1nat
        } else {
            0nat
        },
    decreases c,
{
    if c > 0 {
        lemma_smaller_before_step(block, end, c - 1, i);
    }
}

proof fn lemma_smaller_before_bound(block: Seq<u8>, end: int, c: int, i: int)
    requires
        0 <= c <= 256,
        0 <= i,
    ensures
        smaller_before(block, end, c, i) <= i,
        0 <= end < i ==> smaller_before(block, end, c, i) <= i - 1,
    decreases i,
{
    if i == 0 {
        lemma_smaller_before_zero(block, end, c);
    } else {
        lemma_smaller_before_step(block, end, c, i);
        lemma_smaller_before_bound(block, end, c, i - 1);
    }
}

proof fn lemma_smaller_before_zero(block: Seq<u8>, end: int, c: int)
    requires
        0 <= c,
    ensures
        smaller_before(block, end, c, 0) == 0,
    decreases c,
{
    if c > 0 {
        lemma_smaller_before_zero(block, end, c - 1);
    }
}

proof fn lemma_smaller_is_before(block: Seq<u8>, end: int, c: int)
    requires
        0 <= c,
    ensures
        smaller(block, end, c) == smaller_before(block, end, c, block.len() as int),
    decreases c,
{
    if c > 0 {
        lemma_smaller_is_before(block, end, c - 1);
    }
}

/// A step of the walk from a row other than the filler's stays in the column
/// and does not lead to row 0.
pub proof fn lemma_lf_range(block: Seq<u8>, end: int, i: int)
    requires
        0 <= end < block.len(),
        0 <= i < block.len(),
        i != end,
    ensures
        1 <= lf(block, end, i) < block.len(),
{
    let c = block[i];
    let m = block.len() as int;
    lemma_occ_monotone(block, end, c, i + 1, m);
    assert(occ_before(block, end, c, i + 1) == occ_before(block, end, c, i) + 1);
    assert(smaller(block, end, c + 1) == smaller(block, end, c as int) + occ_before(
        block,
        end,
        c,
        m,
    ));
    lemma_smaller_monotone(block, end, c + 1, 256);
    lemma_smaller_is_before(block, end, 256);
    lemma_smaller_before_bound(block, end, 256, m);
}

/// While the walk has not met the filler its rows lie in the column.
pub proof fn lemma_walk_range(block: Seq<u8>, end: int, s: nat)
    requires
        0 <= end < block.len(),
        walk_ok(block, end, s),
    ensures
        0 <= row_at(block, end, s) < block.len(),
    decreases s,
{
    if s > 0 {
        let prev = (s - 1) as nat;
        assert(walk_ok(block, end, prev)) by {
            assert forall|x: nat| x < prev implies #[trigger] row_at(block, end, x) != end by {
                assert(x < s);
            }
        }
        lemma_walk_range(block, end, prev);
        assert(row_at(block, end, prev) != end);
        lemma_lf_range(block, end, row_at(block, end, prev));
    }
}

impl BwVec {
    /// Whether the column and row are those of some walk that does not meet
    /// the filler, so that a block can be read back from them.
    pub open spec fn wf(&self) -> bool {
        bw_inverse(self.block@, self.end_index as int) is Some
    }
}

/// Transforms a block.
pub fn bw_transform(plaintext: &[u8]) -> (out: BwVec)
    requires
        plaintext@.len() < u32::MAX,
    ensures
        (out.block@, out.end_index as int) == bw_forward(plaintext@),
        plaintext@.len() > 0 ==> out.block@.len() == plaintext@.len() + 1,
        plaintext@.len() > 0 ==> out.end_index < out.block@.len(),
        plaintext@.len() == 0 ==> out.block@.len() == 0 && out.end_index == 0,
        out.wf(),
        bw_inverse(out.block@, out.end_index as int) == Some(plaintext@),
{
    if plaintext.len() == 0 {
        assert(plaintext@ =~= Seq::<u8>::empty());
        return BwVec { block: Vec::new(), end_index: 0 };
    }
    let suffix_array: Vec<usize> = SuffixArray::from_array(plaintext).raw();
    let ghost t = plaintext@;
    let ghost sa = suffix_array@;
    proof {
        lemma_suffix_array_unique(t, sa, suffix_array_of(t));
    }
    let mut out: Vec<u8> = Vec::new();
    let mut end: usize = 0;
    let mut found: bool = false;
    let mut s_index: usize = 0;
    while s_index < suffix_array.len()
        invariant
            s_index <= sa.len(),
            sa == suffix_array@,
            t == plaintext@,
            is_suffix_array(t, sa),
            out@.len() == s_index,
            forall|i: int| 0 <= i < s_index ==> #[trigger] out@[i] == bwt_column(t, sa)[i],
            found ==> end < s_index && sa[end as int] == 0,
            !found ==> forall|i: int| 0 <= i < s_index ==> #[trigger] sa[i] != 0,
        decreases sa.len() - s_index,
    {
        let p_index: usize = suffix_array[s_index];
        if p_index == 0 {
            out.push(FILLER);
            end = s_index;
            found = true;
        } else {
            assert(sa[s_index as int] <= t.len());
            out.push(plaintext[p_index - 1]);
        }
        s_index = s_index + 1;
    }
    proof {
        assert(out@ =~= bwt_column(t, sa));
        crate::bwt_laws::lemma_inverse_of_column(t, sa);
        assert(occurs(sa, 0));
        let r = row_of(sa, 0);
        assert(found);
        if r != end {
            lemma_suffix_irreflexive(t, 0);
            if r < end {
                assert(crate::suffix_order::suffix_lt(t, sa[r] as int, sa[end as int] as int));
            } else {
                assert(crate::suffix_order::suffix_lt(t, sa[end as int] as int, sa[r] as int));
            }
        }
    }
    BwVec { block: out, end_index: end as u32 }
}

fn zeros(count: usize) -> (v: Vec<usize>)
    ensures
        v@.len() == count,
        forall|i: int| 0 <= i < count ==> #[trigger] v@[i] == 0,
{
    let mut v: Vec<usize> = Vec::new();
    let mut i: usize = 0;
    while i < count
        invariant
            i <= count,
            v@.len() == i,
            forall|j: int| 0 <= j < i ==> #[trigger] v@[j] == 0,
        decreases count - i,
    {
        v.push(0);
        i = i + 1;
    }
    v
}

/// Reads the block back from a column and the row of its filler, or finds
/// that there is none.
pub fn try_bw_untransform(cyphertext: &BwVec) -> (out: Option<Vec<u8>>)
    ensures
        match out {
            Some(block) => bw_inverse(cyphertext.block@, cyphertext.end_index as int) == Some(
                block@,
            ),
            None => bw_inverse(cyphertext.block@, cyphertext.end_index as int) is None,
        },
{
    let m: usize = cyphertext.block.len();
    if m == 0 {
        let empty: Vec<u8> = Vec::new();
        assert(empty@ =~= Seq::<u8>::empty());
        return Some(empty);
    }
    let end: usize = cyphertext.end_index as usize;
    if end >= m {
        return None;
    }
    let ghost block = cyphertext.block@;
    let ghost e = end as int;
    let n: usize = m - 1;
    // counts holds for each byte the number of rows that hold it, and
    // position for each row the number of rows further up with the same byte
    let mut counts: Vec<usize> = zeros(256);
    let mut position: Vec<usize> = zeros(m);
    let mut index: usize = 0;
    while index < m
        invariant
            index <= m,
            m == block.len(),
            block == cyphertext.block@,
            0 <= e < m,
            e == end,
            counts@.len() == 256,
            position@.len() == m,
            forall|c: int| 0 <= c < 256 ==> #[trigger] counts@[c] == occ_before(block, e, c as u8, index as int),
            forall|i: int|
                0 <= i < index && i != e ==> #[trigger] position@[i] == occ_before(
                    block,
                    e,
                    block[i],
                    i,
                ),
        decreases m - index,
    {
        if index != end {
            let c: usize = cyphertext.block[index] as usize;
            proof {
                assert(counts@[c as int] == occ_before(block, e, c as u8, index as int));
                lemma_occ_monotone(block, e, c as u8, index as int, m as int - 1);
                lemma_occ_bound(block, e, c as u8, m as int - 1);
            }
            position.set(index, counts[c]);
            counts.set(c, counts[c] + 1);
        }
        index = index + 1;
    }
    // sections holds for each byte the first row of the sorted suffixes that
    // begin with it
    let mut sections: Vec<usize> = Vec::new();
    let mut total: usize = 1;
    let mut c: usize = 0;
    while c < 256
        invariant
            c <= 256,
            m == block.len(),
            0 <= e < m,
            counts@.len() == 256,
            forall|c: int| 0 <= c < 256 ==> #[trigger] counts@[c] == occ_before(block, e, c as u8, m as int),
            sections@.len() == c,
            total == 1 + smaller(block, e, c as int),
            forall|d: int| 0 <= d < c ==> #[trigger] sections@[d] == 1 + smaller(block, e, d),
        decreases 256 - c,
    {
        proof {
            assert(counts@[c as int] == occ_before(block, e, c as u8, m as int));
            lemma_smaller_monotone(block, e, c + 1, 256);
            lemma_smaller_is_before(block, e, 256);
            lemma_smaller_before_bound(block, e, 256, m as int);
        }
        sections.push(total);
        total = total + counts[c];
        c = c + 1;
    }
    let mut out: Vec<u8> = Vec::new();
    let mut filled: usize = 0;
    while filled < n
        invariant
            filled <= n,
            out@.len() == filled,
        decreases n - filled,
    {
        out.push(0);
        filled = filled + 1;
    }
    let mut next_index: usize = 0;
    let mut out_index: usize = n;
    while out_index > 0
        invariant
            out_index <= n,
            n == m - 1,
            m == block.len(),
            block == cyphertext.block@,
            0 <= e < m,
            e == end,
            end == cyphertext.end_index,
            out@.len() == n,
            position@.len() == m,
            sections@.len() == 256,
            forall|d: int| 0 <= d < 256 ==> #[trigger] sections@[d] == 1 + smaller(block, e, d),
            forall|i: int|
                0 <= i < m && i != e ==> #[trigger] position@[i] == occ_before(
                    block,
                    e,
                    block[i],
                    i,
                ),
            walk_ok(block, e, (n - out_index) as nat),
            next_index == row_at(block, e, (n - out_index) as nat),
            forall|x: int|
                out_index <= x < n ==> #[trigger] out@[x] == block[row_at(
                    block,
                    e,
                    (n - 1 - x) as nat,
                )],
        decreases out_index,
    {
        let ghost s = (n - out_index) as nat;
        proof {
            lemma_walk_range(block, e, s);
        }
        if next_index == end {
            proof {
                assert(s < n && row_at(block, e, s) == e);
                assert(!walk_ok(block, e, n as nat));
                assert(n as nat == (block.len() - 1) as nat);
            }
            return None;
        }
        out_index = out_index - 1;
        let next_item: u8 = cyphertext.block[next_index];
        out.set(out_index, next_item);
        proof {
            lemma_lf_range(block, e, next_index as int);
            assert(position@[next_index as int] == occ_before(block, e, block[next_index as int], next_index as int));
            assert(sections@[next_item as int] == 1 + smaller(block, e, next_item as int));
            assert forall|x: nat| x < s + 1 implies #[trigger] row_at(block, e, x) != e by {
                if x < s {
                } else {
                    assert(x == s);
                }
            }
        }
        next_index = sections[next_item as usize] + position[next_index];
    }
    proof {
        assert(out@ =~= bw_inverse(block, e)->0);
    }
    Some(out)
}

proof fn lemma_occ_bound(block: Seq<u8>, end: int, c: u8, i: int)
    requires
        0 <= i,
    ensures
        occ_before(block, end, c, i) <= i,
    decreases i,
{
    if i > 0 {
        lemma_occ_bound(block, end, c, i - 1);
    }
}

/// Reads the block back from a column and the row of its filler.
pub fn bw_untransform(cyphertext: &BwVec) -> (out: Vec<u8>)
    requires
        cyphertext.wf(),
    ensures
        Some(out@) == bw_inverse(cyphertext.block@, cyphertext.end_index as int),
{
    match try_bw_untransform(cyphertext) {
        Some(block) => block,
        // not reached: a well-formed column has a block
        None => Vec::new(),
    }
}

} // verus!
