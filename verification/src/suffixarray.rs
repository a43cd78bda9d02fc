//! The suffix array of a byte text, built by prefix doubling.
//!
//! The suffixes are first sorted by their two leading symbols. Each round then
//! turns an order by `h` symbols into an order by `2h` symbols: a suffix is
//! ranked by the pair of its own rank and the rank of the suffix `h` places on.

use vstd::prelude::*;
use crate::suffix_order::{
    is_suffix_array, lemma_prefix_beyond, lemma_prefix_full, lemma_prefix_reflexive,
    lemma_prefix_split, lemma_prefix_trichotomy, occurs, prefix_eq, prefix_lt, sym,
};
use crate::suffix_merge::sort_suffixes;
use crate::suffix_sort::{rank_lt, sorted_by_rank, Suffix};

verus! {

/// A suffix array: the starts of all suffixes of a text, sorted by suffix.
pub struct SuffixArray<'a> {
    _text: &'a [u8],
    array: Vec<usize>,
}

impl<'a> View for SuffixArray<'a> {
    type V = Seq<usize>;

    closed spec fn view(&self) -> Seq<usize> {
        self.array@
    }
}

/// Whether some entry is the suffix that starts at `p`.
spec fn holds(arr: Seq<Suffix>, p: int) -> bool {
    exists|a: int| 0 <= a < arr.len() && (#[trigger] arr[a]).index == p
}

/// The entries are the suffixes of a text of `n` bytes, each once.
spec fn entries_valid(arr: Seq<Suffix>, n: int) -> bool {
    &&& arr.len() == n + 1
    &&& forall|a: int| 0 <= a < arr.len() ==> (#[trigger] arr[a]).index <= n
    &&& forall|a: int, b: int|
        0 <= a < arr.len() && 0 <= b < arr.len() && a != b ==> (#[trigger] arr[a]).index != (
        #[trigger] arr[b]).index
    &&& forall|p: int| 0 <= p <= n ==> #[trigger] holds(arr, p)
}

/// The rank pairs of two entries compare as the prefixes of `h` symbols of
/// their suffixes do.
spec fn follows(t: Seq<u8>, x: Suffix, y: Suffix, h: nat) -> bool {
    &&& rank_lt(x.rank, y.rank) <==> prefix_lt(t, x.index as int, y.index as int, h)
    &&& x.rank == y.rank <==> prefix_eq(t, x.index as int, y.index as int, h)
}

spec fn ranks_follow(t: Seq<u8>, arr: Seq<Suffix>, h: nat) -> bool {
    forall|a: int, b: int|
        0 <= a < arr.len() && 0 <= b < arr.len() ==> follows(
            t,
            #[trigger] arr[a],
            #[trigger] arr[b],
            h,
        )
}

/// The first ranks of two entries compare as the prefixes of `h` symbols of
/// their suffixes do.
spec fn first_follows(t: Seq<u8>, x: Suffix, y: Suffix, h: nat) -> bool {
    &&& x.rank.0 < y.rank.0 <==> prefix_lt(t, x.index as int, y.index as int, h)
    &&& x.rank.0 == y.rank.0 <==> prefix_eq(t, x.index as int, y.index as int, h)
}

spec fn firsts_follow(t: Seq<u8>, arr: Seq<Suffix>, h: nat) -> bool {
    &&& forall|a: int| 0 <= a < arr.len() ==> 1 <= (#[trigger] arr[a]).rank.0 <= arr.len()
    &&& forall|a: int, b: int|
        0 <= a < arr.len() && 0 <= b < arr.len() ==> first_follows(
            t,
            #[trigger] arr[a],
            #[trigger] arr[b],
            h,
        )
}

/// `indices` tells for every suffix the entry that holds it.
spec fn located(arr: Seq<Suffix>, indices: Seq<usize>) -> bool {
    &&& indices.len() == arr.len()
    &&& forall|a: int| 0 <= a < arr.len() ==> #[trigger] indices[arr[a].index as int] == a
}

/// Entries rearranged are still the suffixes, with ranks that still follow.
proof fn lemma_rearranged(t: Seq<u8>, before: Seq<Suffix>, after: Seq<Suffix>, h: nat)
    requires
        entries_valid(before, t.len() as int),
        ranks_follow(t, before, h),
        after.to_multiset() == before.to_multiset(),
        after.len() == before.len(),
    ensures
        entries_valid(after, t.len() as int),
        ranks_follow(t, after, h),
{
    before.to_multiset_ensures();
    after.to_multiset_ensures();
    assert forall|a: int| 0 <= a < after.len() implies before.contains(#[trigger] after[a]) by {
        assert(after.contains(after[a]));
        assert(after.to_multiset().count(after[a]) > 0);
        assert(before.to_multiset().count(after[a]) > 0);
    }
    assert forall|a: int| 0 <= a < after.len() implies (#[trigger] after[a]).index
        <= t.len() by {
        let x = choose|x: int| 0 <= x < before.len() && before[x] == after[a];
        assert(before[x].index <= t.len());
    }
    assert(before.no_duplicates()) by {
        assert forall|i: int, j: int|
            0 <= i < before.len() && 0 <= j < before.len() && i != j implies before[i]
            != before[j] by {
            assert(before[i].index != before[j].index);
        }
    }
    before.lemma_multiset_has_no_duplicates();
    after.lemma_multiset_has_no_duplicates_conv();
    assert forall|a: int, b: int|
        0 <= a < after.len() && 0 <= b < after.len() && a != b implies (#[trigger] after[a]).index
        != (#[trigger] after[b]).index by {
        let x = choose|x: int| 0 <= x < before.len() && before[x] == after[a];
        let y = choose|y: int| 0 <= y < before.len() && before[y] == after[b];
        assert(after[a] != after[b]);
        assert(x != y);
        assert(before[x].index != before[y].index);
    }
    assert forall|p: int| 0 <= p <= t.len() implies #[trigger] holds(after, p) by {
        assert(holds(before, p));
        let x = choose|x: int| 0 <= x < before.len() && before[x].index == p;
        assert(before.contains(before[x]));
        assert(before.to_multiset().count(before[x]) > 0);
        assert(after.to_multiset().count(before[x]) > 0);
        assert(after.contains(before[x]));
        let a = choose|a: int| 0 <= a < after.len() && after[a] == before[x];
        assert(after[a].index == p);
    }
    assert forall|a: int, b: int| 0 <= a < after.len() && 0 <= b < after.len() implies follows(
        t,
        #[trigger] after[a],
        #[trigger] after[b],
        h,
    ) by {
        let x = choose|x: int| 0 <= x < before.len() && before[x] == after[a];
        let y = choose|y: int| 0 <= y < before.len() && before[y] == after[b];
        assert(follows(t, before[x], before[y], h));
    }
}

/// One entry for every suffix, ranked by its two leading symbols.
fn initial_entries(body: &[u8]) -> (array: Vec<Suffix>)
    requires
        body@.len() < usize::MAX,
    ensures
        entries_valid(array@, body@.len() as int),
        ranks_follow(body@, array@, 2),
{
    let n: usize = body.len();
    let mut array: Vec<Suffix> = Vec::new();
    let mut i: usize = 0;
    while i < n
        invariant
            i <= n,
            n == body@.len(),
            array@.len() == i,
            forall|a: int|
                0 <= a < i ==> (#[trigger] array@[a]).index == a && array@[a].rank == (
                    sym(body@, a) as i64,
                    sym(body@, a + 1) as i64,
                ),
        decreases n - i,
    {
        let first: i64 = body[i] as i64;
        let second: i64 = if i == n - 1 {
            -1
        } else {
            body[i + 1] as i64
        };
        array.push(Suffix { index: i, rank: (first, second) });
        i = i + 1;
    }
    array.push(Suffix { index: n, rank: (-1, -2) });
    proof {
        let t = body@;
        let arr = array@;
        assert forall|p: int| 0 <= p <= n implies #[trigger] holds(arr, p) by {
            assert(arr[p].index == p);
        }
        assert forall|a: int, b: int| 0 <= a < arr.len() && 0 <= b < arr.len() implies follows(
            t,
            #[trigger] arr[a],
            #[trigger] arr[b],
            2,
        ) by {
            lemma_prefix_split(t, a, b, 1, 1);
            lemma_prefix_reflexive(t, a, 2);
            assert(prefix_lt(t, a, b, 1) == (sym(t, a) < sym(t, b))) by {
                assert(!prefix_lt(t, a + 1, b + 1, 0));
            }
            assert(prefix_eq(t, a, b, 1) == (sym(t, a) == sym(t, b))) by {
                assert(prefix_eq(t, a + 1, b + 1, 0));
            }
            assert(prefix_lt(t, a + 1, b + 1, 1) == (sym(t, a + 1) < sym(t, b + 1))) by {
                assert(!prefix_lt(t, a + 2, b + 2, 0));
            }
            assert(prefix_eq(t, a + 1, b + 1, 1) == (sym(t, a + 1) == sym(t, b + 1))) by {
                assert(prefix_eq(t, a + 2, b + 2, 0));
            }
        }
    }
    array
}

/// What renumbering achieves: the first ranks alone now compare as the rank
/// pairs did.
proof fn lemma_renumbered(t: Seq<u8>, before: Seq<Suffix>, after: Seq<Suffix>, h: nat)
    requires
        ranks_follow(t, before, h),
        sorted_by_rank(before),
        after.len() == before.len(),
        forall|a: int| 0 <= a < after.len() ==> (#[trigger] after[a]).index == before[a].index,
        forall|a: int| 0 <= a < after.len() ==> 1 <= (#[trigger] after[a]).rank.0 <= a + 1,
        forall|a: int, b: int|
            0 <= a <= b < after.len() ==> (#[trigger] after[a]).rank.0 <= (
            #[trigger] after[b]).rank.0 && (after[a].rank.0 == after[b].rank.0 <==> before[a].rank
                == before[b].rank),
    ensures
        firsts_follow(t, after, h),
{
    assert forall|a: int, b: int|
        0 <= a < after.len() && 0 <= b < after.len() implies first_follows(
        t,
        #[trigger] after[a],
        #[trigger] after[b],
        h,
    ) by {
        assert(follows(t, before[a], before[b], h));
        assert(follows(t, before[b], before[a], h));
        lemma_prefix_trichotomy(t, before[a].index as int, before[b].index as int, h);
        if a <= b {
            assert(after[a].rank.0 <= after[b].rank.0 && (after[a].rank.0 == after[b].rank.0
                <==> before[a].rank == before[b].rank));
            if a < b {
                assert(!rank_lt(before[b].rank, before[a].rank));
            }
        } else {
            assert(after[b].rank.0 <= after[a].rank.0 && (after[b].rank.0 == after[a].rank.0
                <==> before[b].rank == before[a].rank));
            assert(!rank_lt(before[a].rank, before[b].rank));
        }
    }
}

/// Gives the entries, which stand sorted by rank pair, dense first ranks from
/// 1 on: entries with equal pairs get equal ranks, a greater pair a greater
/// rank. Also notes for every suffix the entry that holds it.
fn renumber(
    array: &mut Vec<Suffix>,
    indices: &mut Vec<usize>,
    Ghost(t): Ghost<Seq<u8>>,
    Ghost(h): Ghost<nat>,
)
    requires
        entries_valid(old(array)@, t.len() as int),
        ranks_follow(t, old(array)@, h),
        sorted_by_rank(old(array)@),
        old(indices)@.len() == old(array)@.len(),
        t.len() < i64::MAX,
    ensures
        entries_valid(final(array)@, t.len() as int),
        firsts_follow(t, final(array)@, h),
        located(final(array)@, final(indices)@),
        forall|a: int|
            0 <= a < final(array)@.len() ==> (#[trigger] final(array)@[a]).index == old(
                array,
            )@[a].index,
{
    let len: usize = array.len();
    let ghost before = array@;
    let mut prev: (i64, i64) = array[0].rank;
    let mut rank: i64 = 1;
    let first_index: usize = array[0].index;
    array.set(0, Suffix { index: first_index, rank: (1, prev.1) });
    indices.set(first_index, 0);
    let mut i: usize = 1;
    while i < len
        invariant
            1 <= i <= len,
            len == before.len(),
            len <= i64::MAX,
            array@.len() == len,
            indices@.len() == len,
            entries_valid(before, len - 1),
            forall|a: int| 0 <= a < len ==> (#[trigger] array@[a]).index == before[a].index,
            forall|a: int| i <= a < len ==> #[trigger] array@[a] == before[a],
            prev == before[i - 1].rank,
            rank == array@[i - 1].rank.0,
            forall|a: int| 0 <= a < i ==> 1 <= (#[trigger] array@[a]).rank.0 <= a + 1,
            forall|a: int, b: int|
                0 <= a <= b < i ==> (#[trigger] array@[a]).rank.0 <= (#[trigger] array@[b]).rank.0
                    && (array@[a].rank.0 == array@[b].rank.0 <==> before[a].rank
                    == before[b].rank),
            sorted_by_rank(before),
            forall|a: int| 0 <= a < i ==> #[trigger] indices@[before[a].index as int] == a,
        decreases len - i,
    {
        let cur: (i64, i64) = array[i].rank;
        let index: usize = array[i].index;
        let ghost so_far = array@;
        if !(cur.0 == prev.0 && cur.1 == prev.1) {
            rank = rank + 1;
        }
        array.set(i, Suffix { index, rank: (rank, cur.1) });
        indices.set(index, i);
        proof {
            assert(cur == before[i as int].rank);
            assert forall|a: int, b: int| 0 <= a <= b < i + 1 implies (
            #[trigger] array@[a]).rank.0 <= (#[trigger] array@[b]).rank.0 && (array@[a].rank.0
                == array@[b].rank.0 <==> before[a].rank == before[b].rank) by {
                if b == i && a < i {
                    assert(array@[a] == so_far[a]);
                    assert(so_far[a].rank.0 <= so_far[i - 1].rank.0 && (so_far[a].rank.0
                        == so_far[i - 1].rank.0 <==> before[a].rank == before[i - 1].rank));
                    assert(!rank_lt(before[i as int].rank, before[i - 1].rank));
                    if a < i - 1 {
                        assert(!rank_lt(before[i - 1].rank, before[a].rank));
                    }
                    assert(!rank_lt(before[i as int].rank, before[a].rank));
                } else if b < i {
                    assert(array@[a] == so_far[a]);
                    assert(array@[b] == so_far[b]);
                }
            }
            assert forall|a: int| 0 <= a < i + 1 implies #[trigger] indices@[before[a].index as int]
                == a by {
                if a < i {
                    assert(before[a].index != before[i as int].index);
                }
            }
        }
        prev = cur;
        i = i + 1;
    }
    proof {
        lemma_renumbered(t, before, array@, h);
        assert forall|p: int| 0 <= p <= t.len() implies #[trigger] holds(array@, p) by {
            assert(holds(before, p));
            let x = choose|x: int| 0 <= x < before.len() && before[x].index == p;
            assert(array@[x].index == p);
        }
        assert forall|a: int| 0 <= a < array@.len() implies #[trigger] indices@[array@[a].index as int]
            == a by {
            assert(indices@[before[a].index as int] == a);
        }
    }
}

/// What the second ranks achieve: with the first rank of the suffix `h`
/// places on as second rank, the pairs compare as prefixes of `2h` symbols.
proof fn lemma_extended(
    t: Seq<u8>,
    before: Seq<Suffix>,
    after: Seq<Suffix>,
    indices: Seq<usize>,
    h: nat,
)
    requires
        h >= 1,
        entries_valid(before, t.len() as int),
        firsts_follow(t, before, h),
        located(before, indices),
        after.len() == before.len(),
        forall|a: int|
            0 <= a < after.len() ==> (#[trigger] after[a]).index == before[a].index
                && after[a].rank.0 == before[a].rank.0 && after[a].rank.1 == (if before[a].index
                + h < t.len() {
                before[indices[before[a].index + h] as int].rank.0
            } else {
                -1i64
            }),
    ensures
        ranks_follow(t, after, 2 * h),
{
    let n = t.len() as int;
    assert forall|a: int, b: int| 0 <= a < after.len() && 0 <= b < after.len() implies follows(
        t,
        #[trigger] after[a],
        #[trigger] after[b],
        2 * h,
    ) by {
        let p = before[a].index as int;
        let q = before[b].index as int;
        assert(after[a].index == p && after[b].index == q);
        assert(first_follows(t, before[a], before[b], h));
        lemma_prefix_split(t, p, q, h, h);
        lemma_prefix_trichotomy(t, p + h, q + h, h);
        if p + h < n && q + h < n {
            assert(holds(before, p + h));
            assert(holds(before, q + h));
            let x = choose|x: int| 0 <= x < before.len() && before[x].index == p + h;
            let y = choose|y: int| 0 <= y < before.len() && before[y].index == q + h;
            assert(indices[before[x].index as int] == x);
            assert(indices[before[y].index as int] == y);
            assert(first_follows(t, before[x], before[y], h));
        } else if p + h >= n && q + h >= n {
            lemma_prefix_beyond(t, p + h, q + h, h);
        } else if p + h >= n {
            assert(holds(before, q + h));
            let y = choose|y: int| 0 <= y < before.len() && before[y].index == q + h;
            assert(indices[before[y].index as int] == y);
            assert(1 <= before[y].rank.0);
            assert(sym(t, p + h) == -1 && sym(t, q + h) >= 0);
        } else {
            assert(holds(before, p + h));
            let x = choose|x: int| 0 <= x < before.len() && before[x].index == p + h;
            assert(indices[before[x].index as int] == x);
            assert(1 <= before[x].rank.0);
            assert(sym(t, q + h) == -1 && sym(t, p + h) >= 0);
        }
    }
}

/// Gives every entry as second rank the first rank of the suffix `h` places
/// on, or -1 where that suffix is empty or there is none.
fn extend_ranks(
    array: &mut Vec<Suffix>,
    indices: &Vec<usize>,
    h: usize,
    Ghost(t): Ghost<Seq<u8>>,
)
    requires
        h >= 1,
        entries_valid(old(array)@, t.len() as int),
        firsts_follow(t, old(array)@, h as nat),
        located(old(array)@, indices@),
    ensures
        entries_valid(final(array)@, t.len() as int),
        ranks_follow(t, final(array)@, 2 * (h as nat)),
{
    let len: usize = array.len();
    let n: usize = len - 1;
    let ghost before = array@;
    let mut i: usize = 0;
    while i < len
        invariant
            i <= len,
            len == before.len(),
            n == t.len(),
            array@.len() == len,
            entries_valid(before, t.len() as int),
            located(before, indices@),
            forall|a: int| i <= a < len ==> #[trigger] array@[a] == before[a],
            forall|a: int|
                0 <= a < len ==> (#[trigger] array@[a]).index == before[a].index
                    && array@[a].rank.0 == before[a].rank.0,
            forall|a: int|
                0 <= a < i ==> (#[trigger] array@[a]).rank.1 == (if before[a].index + h < t.len() {
                    before[indices@[before[a].index + h] as int].rank.0
                } else {
                    -1i64
                }),
        decreases len - i,
    {
        let index: usize = array[i].index;
        let first: i64 = array[i].rank.0;
        proof {
            assert(before[i as int].index <= n);
            if index + h < n {
                assert(holds(before, index + h));
                let x = choose|x: int| 0 <= x < before.len() && before[x].index == index + h;
                assert(indices@[before[x].index as int] == x);
            }
        }
        let second: i64 = if h < n - index {
            array[indices[index + h]].rank.0
        } else {
            -1
        };
        array.set(i, Suffix { index, rank: (first, second) });
        i = i + 1;
    }
    proof {
        lemma_extended(t, before, array@, indices@, h as nat);
        assert forall|p: int| 0 <= p <= t.len() implies #[trigger] holds(array@, p) by {
            assert(holds(before, p));
            let x = choose|x: int| 0 <= x < before.len() && before[x].index == p;
            assert(array@[x].index == p);
        }
    }
}

/// Entries sorted by ranks that follow prefixes reaching the end of the text
/// stand in the order of the suffixes.
proof fn lemma_finished(t: Seq<u8>, arr: Seq<Suffix>, h: nat, sa: Seq<usize>)
    requires
        entries_valid(arr, t.len() as int),
        ranks_follow(t, arr, h),
        sorted_by_rank(arr),
        h > t.len(),
        sa.len() == arr.len(),
        forall|a: int| 0 <= a < sa.len() ==> #[trigger] sa[a] == arr[a].index,
    ensures
        is_suffix_array(t, sa),
{
    assert forall|a: int, b: int| 0 <= a < b < sa.len() implies crate::suffix_order::suffix_lt(
        t,
        #[trigger] sa[a] as int,
        #[trigger] sa[b] as int,
    ) by {
        let p = arr[a].index as int;
        let q = arr[b].index as int;
        assert(follows(t, arr[a], arr[b], h));
        assert(!rank_lt(arr[b].rank, arr[a].rank));
        lemma_prefix_full(t, p, q, h);
        assert(p != q);
    }
    assert forall|p: int| 0 <= p <= t.len() implies #[trigger] occurs(sa, p) by {
        assert(holds(arr, p));
        let x = choose|x: int| 0 <= x < arr.len() && arr[x].index == p;
        assert(sa[x] == p);
    }
}

impl<'a> SuffixArray<'a> {
    /// The text whose suffixes are sorted.
    pub closed spec fn text(&self) -> Seq<u8> {
        self._text@
    }

    /// Builds the suffix array of `body`.
    pub fn from_array(body: &'a [u8]) -> (sa: SuffixArray<'a>)
        requires
            body@.len() < usize::MAX,
            body@.len() < i64::MAX,
        ensures
            sa.text() == body@,
            is_suffix_array(body@, sa@),
            sa@[0] == body@.len(),
    {
        let n: usize = body.len();
        let mut array: Vec<Suffix> = initial_entries(body);
        let ghost unsorted = array@;
        sort_suffixes(&mut array);
        proof {
            lemma_rearranged(body@, unsorted, array@, 2);
        }
        let mut indices: Vec<usize> = Vec::new();
        let mut c: usize = 0;
        while c < n + 1
            invariant
                c <= n + 1,
                n == body@.len(),
                n < usize::MAX,
                indices@.len() == c,
            decreases n + 1 - c,
        {
            indices.push(0);
            c = c + 1;
        }
        let mut h: usize = 2;
        while h < n + 1
            invariant
                h >= 2,
                n == body@.len(),
                n < usize::MAX,
                n < i64::MAX,
                indices@.len() == n + 1,
                entries_valid(array@, n as int),
                ranks_follow(body@, array@, h as nat),
                sorted_by_rank(array@),
            decreases n + 1 - h,
        {
            renumber(&mut array, &mut indices, Ghost(body@), Ghost(h as nat));
            extend_ranks(&mut array, &indices, h, Ghost(body@));
            let ghost unsorted = array@;
            sort_suffixes(&mut array);
            proof {
                lemma_rearranged(body@, unsorted, array@, 2 * (h as nat));
            }
            if h > n / 2 {
                proof {
                    lemma_longer(body@, array@, 2 * (h as nat), (n + 1) as nat);
                }
                h = n + 1;
            } else {
                h = 2 * h;
            }
        }
        let mut out: Vec<usize> = Vec::new();
        let mut i: usize = 0;
        while i < n + 1
            invariant
                i <= n + 1,
                n == body@.len(),
                n < usize::MAX,
                array@.len() == n + 1,
                out@.len() == i,
                forall|a: int| 0 <= a < i ==> #[trigger] out@[a] == array@[a].index,
            decreases n + 1 - i,
        {
            out.push(array[i].index);
            i = i + 1;
        }
        proof {
            lemma_finished(body@, array@, h as nat, out@);
            crate::suffix_order::lemma_suffix_array_first(body@, out@);
        }
        SuffixArray { _text: body, array: out }
    }

    /// The sorted starts of the suffixes.
    pub fn raw(self) -> (out: Vec<usize>)
        ensures
            out@ == self@,
    {
        self.array
    }
}

/// Ranks that follow prefixes reaching the end of the text follow every
/// longer prefix as well.
proof fn lemma_longer(t: Seq<u8>, arr: Seq<Suffix>, h: nat, longer: nat)
    requires
        entries_valid(arr, t.len() as int),
        ranks_follow(t, arr, h),
        h > t.len(),
        longer > t.len(),
    ensures
        ranks_follow(t, arr, longer),
{
    assert forall|a: int, b: int| 0 <= a < arr.len() && 0 <= b < arr.len() implies follows(
        t,
        #[trigger] arr[a],
        #[trigger] arr[b],
        longer,
    ) by {
        let p = arr[a].index as int;
        let q = arr[b].index as int;
        assert(follows(t, arr[a], arr[b], h));
        lemma_prefix_full(t, p, q, h);
        lemma_prefix_full(t, p, q, longer);
        lemma_prefix_reflexive(t, p, h);
        lemma_prefix_reflexive(t, p, longer);
    }
}

} // verus!
