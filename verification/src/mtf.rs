//! The move-to-front transform: every byte is replaced by its place in a list
//! of all bytes, and then moved to the recent end of that list.

use vstd::prelude::*;

verus! {

/// The list before any byte is seen: byte `b` stands at place `255 - b`.
pub open spec fn initial_list() -> Seq<u8> {
    Seq::new(256, |i: int| (255 - i) as u8)
}

/// The list with the byte at place `i` moved to the recent end.
pub open spec fn promote(list: Seq<u8>, i: int) -> Seq<u8> {
    list.remove(i).push(list[i])
}

/// The place of `b` in the list.
pub open spec fn place_of(list: Seq<u8>, b: u8) -> int {
    choose|i: int| 0 <= i < list.len() && list[i] == b
}

/// The list holds every byte exactly once.
pub open spec fn is_permutation(list: Seq<u8>) -> bool {
    &&& list.len() == 256
    &&& list.no_duplicates()
    &&& forall|b: u8| list.contains(b)
}

/// The list after the bytes of `input` have been seen.
pub open spec fn list_after(input: Seq<u8>) -> Seq<u8>
    decreases input.len(),
{
    if input.len() == 0 {
        initial_list()
    } else {
        let prev = list_after(input.drop_last());
        promote(prev, place_of(prev, input.last()))
    }
}

/// The transform of `input`: the place of each byte in the list that the
/// bytes before it have left.
pub open spec fn mtf_forward(input: Seq<u8>) -> Seq<u8> {
    Seq::new(input.len(), |k: int| place_of(list_after(input.take(k)), input[k]) as u8)
}

/// The list after the places `ranks` have been promoted in turn.
pub open spec fn list_after_ranks(ranks: Seq<u8>) -> Seq<u8>
    decreases ranks.len(),
{
    if ranks.len() == 0 {
        initial_list()
    } else {
        promote(list_after_ranks(ranks.drop_last()), ranks.last() as int)
    }
}

/// The bytes that `ranks` is the transform of: the byte at each place in the
/// list that the places before it have left.
pub open spec fn mtf_inverse(ranks: Seq<u8>) -> Seq<u8> {
    Seq::new(ranks.len(), |k: int| list_after_ranks(ranks.take(k))[ranks[k] as int])
}

pub proof fn lemma_initial_permutation()
    ensures
        is_permutation(initial_list()),
{
    let list = initial_list();
    assert forall|b: u8| list.contains(b) by {
        assert(list[255 - b] == b);
    }
}

/// In a list that holds every byte once, each byte has one place.
pub proof fn lemma_place_of(list: Seq<u8>, b: u8, i: int)
    requires
        is_permutation(list),
        0 <= i < 256,
        list[i] == b,
    ensures
        place_of(list, b) == i,
{
}

pub proof fn lemma_place_in_range(list: Seq<u8>, b: u8)
    requires
        is_permutation(list),
    ensures
        0 <= place_of(list, b) < 256,
        list[place_of(list, b)] == b,
{
    assert(list.contains(b));
}

/// Promoting a place leaves a list that holds every byte once.
pub proof fn lemma_promote_permutation(list: Seq<u8>, i: int)
    requires
        is_permutation(list),
        0 <= i < 256,
    ensures
        is_permutation(promote(list, i)),
{
    let next = promote(list, i);
    assert forall|x: int, y: int| 0 <= x < next.len() && 0 <= y < next.len() && x != y implies next[x]
        != next[y] by {
        let from = |z: int| if z == 255 { i } else if z < i { z } else { z + 1 };
        assert(next[x] == list[from(x)]);
        assert(next[y] == list[from(y)]);
        assert(from(x) != from(y));
    }
    assert forall|b: u8| next.contains(b) by {
        assert(list.contains(b));
        let z = choose|z: int| 0 <= z < list.len() && list[z] == b;
        if z == i {
            assert(next[255] == b);
        } else if z < i {
            assert(next[z] == b);
        } else {
            assert(next[z - 1] == b);
        }
    }
}

/// After any number of bytes the list holds every byte exactly once.
pub proof fn lemma_list_permutation(input: Seq<u8>)
    ensures
        is_permutation(list_after(input)),
    decreases input.len(),
{
    if input.len() == 0 {
        lemma_initial_permutation();
    } else {
        let prev = list_after(input.drop_last());
        lemma_list_permutation(input.drop_last());
        lemma_place_in_range(prev, input.last());
        lemma_promote_permutation(prev, place_of(prev, input.last()));
    }
}

/// After any number of places promoted the list holds every byte exactly once.
pub proof fn lemma_list_ranks_permutation(ranks: Seq<u8>)
    ensures
        is_permutation(list_after_ranks(ranks)),
    decreases ranks.len(),
{
    if ranks.len() == 0 {
        lemma_initial_permutation();
    } else {
        lemma_list_ranks_permutation(ranks.drop_last());
        lemma_promote_permutation(list_after_ranks(ranks.drop_last()), ranks.last() as int);
    }
}

/// The transform has the length of its input, and the transform of a prefix
/// is a prefix of the transform.
pub proof fn lemma_forward_prefix(input: Seq<u8>, k: int)
    requires
        0 <= k <= input.len(),
    ensures
        mtf_forward(input).len() == input.len(),
        mtf_forward(input).take(k) == mtf_forward(input.take(k)),
{
    let a = mtf_forward(input).take(k);
    let b = mtf_forward(input.take(k));
    assert forall|j: int| 0 <= j < k implies a[j] == b[j] by {
        assert(input.take(k).take(j) =~= input.take(j));
    }
    assert(a =~= b);
}

/// The inverse, reading the transform, keeps the list that the transform kept.
pub proof fn lemma_lists_agree(input: Seq<u8>)
    ensures
        list_after_ranks(mtf_forward(input)) == list_after(input),
    decreases input.len(),
{
    let ranks = mtf_forward(input);
    if input.len() > 0 {
        let k = input.len() - 1;
        lemma_forward_prefix(input, k);
        assert(input.take(k) =~= input.drop_last());
        assert(ranks.drop_last() =~= ranks.take(k));
        lemma_lists_agree(input.drop_last());
        lemma_list_permutation(input.drop_last());
        lemma_place_in_range(list_after(input.drop_last()), input.last());
    }
}

/// The inverse of the transform of any bytes is those bytes.
pub proof fn lemma_mtf_round_trip(input: Seq<u8>)
    ensures
        mtf_inverse(mtf_forward(input)) == input,
{
    let ranks = mtf_forward(input);
    let back = mtf_inverse(ranks);
    assert forall|k: int| 0 <= k < input.len() implies back[k] == input[k] by {
        lemma_forward_prefix(input, k);
        lemma_lists_agree(input.take(k));
        lemma_list_permutation(input.take(k));
        lemma_place_in_range(list_after(input.take(k)), input[k]);
    }
    assert(back =~= input);
}

fn fresh_list() -> (dict: Vec<u8>)
    ensures
        dict@ == initial_list(),
{
    let mut dict: Vec<u8> = Vec::new();
    let mut i: usize = 0;
    while i < 256
        invariant
            i <= 256,
            dict@.len() == i,
            forall|j: int| 0 <= j < i ==> #[trigger] dict@[j] == (255 - j) as u8,
        decreases 256 - i,
    {
        dict.push((255 - i) as u8);
        i = i + 1;
    }
    assert(dict@ =~= initial_list());
    dict
}

/// Transforms bytes to their places in the list.
pub fn mtf_transform(plaintext: &[u8]) -> (out: Vec<u8>)
    ensures
        out@ == mtf_forward(plaintext@),
        out@.len() == plaintext@.len(),
{
    let mut dict: Vec<u8> = fresh_list();
    let mut out: Vec<u8> = Vec::new();
    let mut k: usize = 0;
    proof {
        assert(plaintext@.take(0) =~= Seq::<u8>::empty());
    }
    while k < plaintext.len()
        invariant
            k <= plaintext@.len(),
            out@.len() == k,
            dict@ == list_after(plaintext@.take(k as int)),
            forall|j: int| 0 <= j < k ==> #[trigger] out@[j] == mtf_forward(plaintext@)[j],
        decreases plaintext@.len() - k,
    {
        let item: u8 = plaintext[k];
        let ghost list = dict@;
        proof {
            lemma_list_permutation(plaintext@.take(k as int));
            lemma_place_in_range(list, item);
        }
        let mut i: usize = 255;
        while dict[i] != item
            invariant
                i < 256,
                dict@ == list,
                is_permutation(list),
                0 <= place_of(list, item) <= i,
                list[place_of(list, item)] == item,
            decreases i,
        {
            i = i - 1;
        }
        proof {
            lemma_place_of(list, item, i as int);
            let next = plaintext@.take(k + 1);
            assert(next.drop_last() =~= plaintext@.take(k as int));
            assert(next.last() == item);
        }
        dict.remove(i);
        dict.push(item);
        out.push(i as u8);
        k = k + 1;
    }
    proof {
        assert(out@ =~= mtf_forward(plaintext@));
    }
    out
}

/// Transforms places in the list back to bytes.
pub fn mtf_untransform(cyphertext: &[u8]) -> (out: Vec<u8>)
    ensures
        out@ == mtf_inverse(cyphertext@),
        out@.len() == cyphertext@.len(),
{
    let mut dict: Vec<u8> = fresh_list();
    let mut out: Vec<u8> = Vec::new();
    let mut k: usize = 0;
    proof {
        assert(cyphertext@.take(0) =~= Seq::<u8>::empty());
    }
    while k < cyphertext.len()
        invariant
            k <= cyphertext@.len(),
            out@.len() == k,
            dict@ == list_after_ranks(cyphertext@.take(k as int)),
            forall|j: int| 0 <= j < k ==> #[trigger] out@[j] == mtf_inverse(cyphertext@)[j],
        decreases cyphertext@.len() - k,
    {
        let rank: usize = cyphertext[k] as usize;
        proof {
            lemma_list_ranks_permutation(cyphertext@.take(k as int));
            let next = cyphertext@.take(k + 1);
            assert(next.drop_last() =~= cyphertext@.take(k as int));
            assert(next.last() == cyphertext@[k as int]);
        }
        let item: u8 = dict[rank];
        out.push(item);
        dict.remove(rank);
        dict.push(item);
        k = k + 1;
    }
    proof {
        assert(out@ =~= mtf_inverse(cyphertext@));
    }
    out
}

} // verus!
