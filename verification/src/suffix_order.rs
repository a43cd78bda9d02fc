//! The order of the suffixes of a text, and of their prefixes of a given length.
//!
//! A suffix that is a proper prefix of another sorts before it, as if every
//! suffix ended in a sentinel smaller than any byte.

use vstd::prelude::*;

verus! {

/// Whether the suffix of `t` from `i` sorts strictly before the suffix from `j`.
pub open spec fn suffix_lt(t: Seq<u8>, i: int, j: int) -> bool
    decreases t.len() - i,
{
    if j >= t.len() || i < 0 || j < 0 {
        false
    } else if i >= t.len() {
        true
    } else if t[i] != t[j] {
        t[i] < t[j]
    } else {
        suffix_lt(t, i + 1, j + 1)
    }
}

/// The symbol at position `p`: the byte there, or the sentinel past the end.
pub open spec fn sym(t: Seq<u8>, p: int) -> int {
    if 0 <= p < t.len() {
        t[p] as int
    } else {
        -1
    }
}

/// Whether the first `h` symbols from `i` sort strictly before those from `j`.
pub open spec fn prefix_lt(t: Seq<u8>, i: int, j: int, h: nat) -> bool
    decreases h,
{
    if h == 0 {
        false
    } else if sym(t, i) != sym(t, j) {
        sym(t, i) < sym(t, j)
    } else {
        prefix_lt(t, i + 1, j + 1, (h - 1) as nat)
    }
}

/// Whether the first `h` symbols from `i` are those from `j`.
pub open spec fn prefix_eq(t: Seq<u8>, i: int, j: int, h: nat) -> bool
    decreases h,
{
    h == 0 || (sym(t, i) == sym(t, j) && prefix_eq(t, i + 1, j + 1, (h - 1) as nat))
}

/// Of two prefixes exactly one thing holds: the first sorts before the second,
/// they are equal, or the second sorts before the first.
pub proof fn lemma_prefix_trichotomy(t: Seq<u8>, i: int, j: int, h: nat)
    ensures
        prefix_lt(t, i, j, h) || prefix_eq(t, i, j, h) || prefix_lt(t, j, i, h),
        !(prefix_lt(t, i, j, h) && prefix_eq(t, i, j, h)),
        !(prefix_lt(t, j, i, h) && prefix_eq(t, i, j, h)),
        !(prefix_lt(t, i, j, h) && prefix_lt(t, j, i, h)),
        prefix_eq(t, i, j, h) == prefix_eq(t, j, i, h),
    decreases h,
{
    if h > 0 {
        lemma_prefix_trichotomy(t, i + 1, j + 1, (h - 1) as nat);
    }
}

pub proof fn lemma_prefix_reflexive(t: Seq<u8>, i: int, h: nat)
    ensures
        prefix_eq(t, i, i, h),
        !prefix_lt(t, i, i, h),
    decreases h,
{
    if h > 0 {
        lemma_prefix_reflexive(t, i + 1, (h - 1) as nat);
    }
}

/// A prefix of `a + b` symbols is compared by its first `a` symbols, then by
/// the `b` symbols after them.
pub proof fn lemma_prefix_split(t: Seq<u8>, i: int, j: int, a: nat, b: nat)
    ensures
        prefix_lt(t, i, j, a + b) == (prefix_lt(t, i, j, a) || (prefix_eq(t, i, j, a)
            && prefix_lt(t, i + a, j + a, b))),
        prefix_eq(t, i, j, a + b) == (prefix_eq(t, i, j, a) && prefix_eq(t, i + a, j + a, b)),
    decreases a,
{
    if a > 0 {
        lemma_prefix_split(t, i + 1, j + 1, (a - 1) as nat, b);
        assert((a + b - 1) as nat == (a - 1) as nat + b);
    }
}

/// Past the end of the text all prefixes are equal.
pub proof fn lemma_prefix_beyond(t: Seq<u8>, x: int, y: int, h: nat)
    requires
        x >= t.len(),
        y >= t.len(),
    ensures
        prefix_eq(t, x, y, h),
        !prefix_lt(t, x, y, h),
    decreases h,
{
    if h > 0 {
        lemma_prefix_beyond(t, x + 1, y + 1, (h - 1) as nat);
    }
}

/// Prefixes long enough to reach the end of the text are ordered as the
/// suffixes are, and are equal only where they start at the same place.
pub proof fn lemma_prefix_full(t: Seq<u8>, i: int, j: int, h: nat)
    requires
        0 <= i <= t.len(),
        0 <= j <= t.len(),
        h > t.len() - i || h > t.len() - j,
    ensures
        prefix_lt(t, i, j, h) == suffix_lt(t, i, j),
        prefix_eq(t, i, j, h) ==> i == j,
    decreases h,
{
    if i == j {
        lemma_prefix_reflexive(t, i, h);
        lemma_suffix_irreflexive(t, i);
    } else if i < t.len() && j < t.len() && t[i] == t[j] {
        lemma_prefix_full(t, i + 1, j + 1, (h - 1) as nat);
    }
}

pub proof fn lemma_suffix_irreflexive(t: Seq<u8>, i: int)
    ensures
        !suffix_lt(t, i, i),
    decreases t.len() - i,
{
    if 0 <= i < t.len() {
        lemma_suffix_irreflexive(t, i + 1);
    }
}

/// Of two different suffixes exactly one sorts before the other.
pub proof fn lemma_suffix_total(t: Seq<u8>, i: int, j: int)
    requires
        0 <= i <= t.len(),
        0 <= j <= t.len(),
    ensures
        i != j ==> (suffix_lt(t, i, j) != suffix_lt(t, j, i)),
        i == j ==> !suffix_lt(t, i, j),
{
    let h = (t.len() + 1) as nat;
    lemma_prefix_full(t, i, j, h);
    lemma_prefix_full(t, j, i, h);
    lemma_prefix_trichotomy(t, i, j, h);
}

pub proof fn lemma_prefix_transitive(t: Seq<u8>, i: int, j: int, k: int, h: nat)
    ensures
        prefix_lt(t, i, j, h) && prefix_lt(t, j, k, h) ==> prefix_lt(t, i, k, h),
        prefix_eq(t, i, j, h) && prefix_lt(t, j, k, h) ==> prefix_lt(t, i, k, h),
        prefix_lt(t, i, j, h) && prefix_eq(t, j, k, h) ==> prefix_lt(t, i, k, h),
        prefix_eq(t, i, j, h) && prefix_eq(t, j, k, h) ==> prefix_eq(t, i, k, h),
    decreases h,
{
    if h > 0 {
        lemma_prefix_transitive(t, i + 1, j + 1, k + 1, (h - 1) as nat);
    }
}

/// The order of the suffixes is transitive.
pub proof fn lemma_suffix_transitive(t: Seq<u8>, i: int, j: int, k: int)
    requires
        0 <= i <= t.len(),
        0 <= j <= t.len(),
        0 <= k <= t.len(),
        suffix_lt(t, i, j),
        suffix_lt(t, j, k),
    ensures
        suffix_lt(t, i, k),
{
    let h = (t.len() + 1) as nat;
    lemma_prefix_full(t, i, j, h);
    lemma_prefix_full(t, j, k, h);
    lemma_prefix_full(t, i, k, h);
    lemma_prefix_transitive(t, i, j, k, h);
}

/// Whether `p` stands in some row of `sa`.
pub open spec fn occurs(sa: Seq<usize>, p: int) -> bool {
    exists|a: int| 0 <= a < sa.len() && #[trigger] sa[a] == p
}

/// A suffix array of `t`: the starts of all suffixes of `t`, the empty one
/// included, in the strict order of the suffixes.
pub open spec fn is_suffix_array(t: Seq<u8>, sa: Seq<usize>) -> bool {
    &&& sa.len() == t.len() + 1
    &&& forall|a: int| 0 <= a < sa.len() ==> #[trigger] sa[a] <= t.len()
    &&& forall|a: int, b: int|
        0 <= a < b < sa.len() ==> suffix_lt(t, #[trigger] sa[a] as int, #[trigger] sa[b] as int)
    &&& forall|p: int| 0 <= p <= t.len() ==> #[trigger] occurs(sa, p)
}

/// A text has but one suffix array.
pub proof fn lemma_suffix_array_unique(t: Seq<u8>, x: Seq<usize>, y: Seq<usize>)
    requires
        is_suffix_array(t, x),
        is_suffix_array(t, y),
    ensures
        x == y,
{
    assert forall|a: int| 0 <= a < x.len() implies x[a] == y[a] by {
        lemma_agree(t, x, y, a);
    }
    assert(x =~= y);
}

proof fn lemma_agree(t: Seq<u8>, x: Seq<usize>, y: Seq<usize>, a: int)
    requires
        is_suffix_array(t, x),
        is_suffix_array(t, y),
        0 <= a < x.len(),
    ensures
        x[a] == y[a],
    decreases a,
{
    if x[a] != y[a] {
        lemma_suffix_total(t, x[a] as int, y[a] as int);
        // the smaller of the two stands in the other array, and can stand nowhere
        let (lo, other, this) = if suffix_lt(t, x[a] as int, y[a] as int) {
            (x[a], y, x)
        } else {
            (y[a], x, y)
        };
        assert(occurs(other, lo as int));
        let b = choose|b: int| 0 <= b < other.len() && other[b] == lo;
        if b < a {
            lemma_agree(t, x, y, b);
            assert(this[b] == lo);
            assert(suffix_lt(t, this[b] as int, this[a] as int));
            lemma_suffix_irreflexive(t, lo as int);
        } else if b > a {
            assert(suffix_lt(t, other[a] as int, other[b] as int));
        }
    }
}

/// The first row of a suffix array holds the empty suffix.
pub proof fn lemma_suffix_array_first(t: Seq<u8>, sa: Seq<usize>)
    requires
        is_suffix_array(t, sa),
    ensures
        sa[0] == t.len(),
{
    assert(occurs(sa, t.len() as int));
    let a = choose|a: int| 0 <= a < sa.len() && sa[a] == t.len();
    if a > 0 {
        assert(suffix_lt(t, sa[0] as int, sa[a] as int));
    }
}

} // verus!
