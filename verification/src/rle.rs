//! Run-length coding of zero bytes: every maximal run of zeros is replaced by
//! the bijective numeral of its length; other bytes stay as they are.

use vstd::prelude::*;
use crate::bijective::{
    bijective_digits, decoded_value, from_bijective, lemma_decode_encode, to_bijective, Bijective,
};

verus! {

/// A token of run-length coded data.
#[derive(Debug, Clone, Copy, PartialEq, Eq, Structural)]
pub enum RunEncoded {
    /// A byte that is not zero.
    Byte(u8),
    /// One digit of the length of a run of zeros, least significant first.
    ZeroRun(Bijective),
}

/// How many zeros `s` begins with.
pub open spec fn leading_zeros(s: Seq<u8>) -> nat
    decreases s.len(),
{
    if s.len() > 0 && s[0] == 0 {
        1 + leading_zeros(s.drop_first())
    } else {
        0
    }
}

/// The digits that `tokens` begins with.
pub open spec fn leading_digits(tokens: Seq<RunEncoded>) -> Seq<Bijective>
    decreases tokens.len(),
{
    if tokens.len() == 0 {
        Seq::empty()
    } else {
        match tokens[0] {
            RunEncoded::Byte(_) => Seq::empty(),
            RunEncoded::ZeroRun(d) => seq![d] + leading_digits(tokens.drop_first()),
        }
    }
}

/// The digits as tokens.
pub open spec fn digit_tokens(digits: Seq<Bijective>) -> Seq<RunEncoded> {
    Seq::new(digits.len(), |i: int| RunEncoded::ZeroRun(digits[i]))
}

/// `count` zero bytes.
pub open spec fn zero_bytes(count: nat) -> Seq<u8> {
    Seq::new(count, |i: int| 0u8)
}

/// The tokens that stand for the bytes `s`.
pub open spec fn rle_forward(s: Seq<u8>) -> Seq<RunEncoded>
    decreases s.len(),
{
    if s.len() == 0 {
        Seq::empty()
    } else if s[0] != 0 {
        seq![RunEncoded::Byte(s[0])] + rle_forward(s.drop_first())
    } else {
        let run = leading_zeros(s);
        if run > s.len() {
            // never the case: the leading zeros are among the bytes
            Seq::empty()
        } else {
            digit_tokens(bijective_digits(run)) + rle_forward(s.skip(run as int))
        }
    }
}

/// The bytes that `tokens` stand for.
pub open spec fn rle_inverse(tokens: Seq<RunEncoded>) -> Seq<u8>
    decreases tokens.len(),
{
    if tokens.len() == 0 {
        Seq::empty()
    } else {
        match tokens[0] {
            RunEncoded::Byte(b) => seq![b] + rle_inverse(tokens.drop_first()),
            RunEncoded::ZeroRun(_) => {
                let run = leading_digits(tokens);
                if run.len() == 0 || run.len() > tokens.len() {
                    // never the case: the leading digits are among the tokens,
                    // and the first token is one of them
                    Seq::empty()
                } else {
                    zero_bytes(decoded_value(run)) + rle_inverse(tokens.skip(run.len() as int))
                }
            },
        }
    }
}

/// No run of zeros in `s` is longer than a 32-bit number can count.
pub open spec fn runs_short(s: Seq<u8>) -> bool {
    forall|i: int| 0 <= i <= s.len() ==> #[trigger] leading_zeros(s.skip(i)) <= 0xffff_ffff
}

/// No run of digits in `tokens` is longer than 32 digits.
pub open spec fn runs_fit(tokens: Seq<RunEncoded>) -> bool {
    forall|i: int| 0 <= i <= tokens.len() ==> (#[trigger] leading_digits(tokens.skip(i))).len() <= 32
}

/// The leading zeros are zeros, are followed by no zero, and are counted on
/// from any place among them.
pub proof fn lemma_leading_zeros(s: Seq<u8>, k: int)
    requires
        0 <= k <= s.len(),
        forall|i: int| 0 <= i < k ==> s[i] == 0,
    ensures
        leading_zeros(s) == k + leading_zeros(s.skip(k)),
        leading_zeros(s) <= s.len(),
    decreases k,
{
    if k > 0 {
        assert(s.drop_first().skip(k - 1) =~= s.skip(k));
        lemma_leading_zeros(s.drop_first(), k - 1);
    } else {
        assert(s.skip(0) =~= s);
        lemma_leading_zeros_bound(s);
    }
}

pub proof fn lemma_leading_zeros_bound(s: Seq<u8>)
    ensures
        leading_zeros(s) <= s.len(),
        forall|i: int| 0 <= i < leading_zeros(s) ==> s[i] == 0,
        leading_zeros(s) < s.len() ==> s[leading_zeros(s) as int] != 0,
    decreases s.len(),
{
    if s.len() > 0 && s[0] == 0 {
        let rest = s.drop_first();
        lemma_leading_zeros_bound(rest);
        assert forall|i: int| 0 <= i < leading_zeros(s) implies s[i] == 0 by {
            if i > 0 {
                assert(rest[i - 1] == s[i]);
            }
        }
        if leading_zeros(s) < s.len() {
            assert(rest[leading_zeros(rest) as int] == s[leading_zeros(s) as int]);
        }
    }
}

/// The leading digits are counted on from any place among them.
pub proof fn lemma_leading_digits(tokens: Seq<RunEncoded>, digits: Seq<Bijective>)
    requires
        digits.len() <= tokens.len(),
        forall|i: int| 0 <= i < digits.len() ==> tokens[i] == RunEncoded::ZeroRun(digits[i]),
    ensures
        leading_digits(tokens) == digits + leading_digits(tokens.skip(digits.len() as int)),
    decreases digits.len(),
{
    if digits.len() > 0 {
        let rest = tokens.drop_first();
        let fewer = digits.drop_first();
        assert forall|i: int| 0 <= i < fewer.len() implies rest[i] == RunEncoded::ZeroRun(
            fewer[i],
        ) by {
            assert(rest[i] == tokens[i + 1]);
        }
        lemma_leading_digits(rest, fewer);
        assert(rest.skip(fewer.len() as int) =~= tokens.skip(digits.len() as int));
        assert(seq![digits[0]] + (fewer + leading_digits(tokens.skip(digits.len() as int)))
            =~= digits + leading_digits(tokens.skip(digits.len() as int)));
    } else {
        assert(tokens.skip(0) =~= tokens);
        assert(digits + leading_digits(tokens) =~= leading_digits(tokens));
    }
}

pub proof fn lemma_leading_digits_bound(tokens: Seq<RunEncoded>)
    ensures
        leading_digits(tokens).len() <= tokens.len(),
        forall|i: int|
            0 <= i < leading_digits(tokens).len() ==> tokens[i] == RunEncoded::ZeroRun(
                #[trigger] leading_digits(tokens)[i],
            ),
        leading_digits(tokens).len() < tokens.len() ==> tokens[leading_digits(tokens).len() as int]
            is Byte,
    decreases tokens.len(),
{
    if tokens.len() > 0 {
        match tokens[0] {
            RunEncoded::Byte(_) => {},
            RunEncoded::ZeroRun(d) => {
                let rest = tokens.drop_first();
                lemma_leading_digits_bound(rest);
                let run = leading_digits(tokens);
                assert forall|i: int| 0 <= i < run.len() implies tokens[i] == RunEncoded::ZeroRun(
                    #[trigger] run[i],
                ) by {
                    if i > 0 {
                        assert(rest[i - 1] == tokens[i]);
                        assert(run[i] == leading_digits(rest)[i - 1]);
                    }
                }
                if run.len() < tokens.len() {
                    assert(rest[leading_digits(rest).len() as int] == tokens[run.len() as int]);
                }
            },
        }
    }
}

/// The tokens of bytes begin with no digit where the bytes begin with no zero.
proof fn lemma_forward_starts(s: Seq<u8>)
    requires
        s.len() == 0 || s[0] != 0,
    ensures
        leading_digits(rle_forward(s)).len() == 0,
{
    if s.len() > 0 {
        assert(rle_forward(s)[0] == RunEncoded::Byte(s[0]));
    }
}

/// Decoding the tokens of any bytes without overlong runs gives the bytes
/// back, and the tokens have no overlong run of digits.
pub proof fn lemma_rle_round_trip(s: Seq<u8>)
    requires
        runs_short(s),
    ensures
        rle_inverse(rle_forward(s)) == s,
        runs_fit(rle_forward(s)),
    decreases s.len(),
{
    let tokens = rle_forward(s);
    if s.len() == 0 {
        assert(rle_inverse(tokens) =~= s);
        assert forall|i: int| 0 <= i <= tokens.len() implies (#[trigger] leading_digits(
            tokens.skip(i),
        )).len() <= 32 by {
            assert(tokens.skip(i).len() == 0);
        }
    } else if s[0] != 0 {
        let rest = s.drop_first();
        assert(runs_short(rest)) by {
            assert forall|i: int| 0 <= i <= rest.len() implies #[trigger] leading_zeros(
                rest.skip(i),
            ) <= 0xffff_ffff by {
                assert(rest.skip(i) =~= s.skip(i + 1));
            }
        }
        lemma_rle_round_trip(rest);
        assert(tokens.drop_first() =~= rle_forward(rest));
        assert(seq![s[0]] + rest =~= s);
        assert forall|i: int| 0 <= i <= tokens.len() implies (#[trigger] leading_digits(
            tokens.skip(i),
        )).len() <= 32 by {
            if i == 0 {
                assert(tokens.skip(0) =~= tokens);
            } else {
                assert(tokens.skip(i) =~= rle_forward(rest).skip(i - 1));
            }
        }
    } else {
        let run = leading_zeros(s);
        lemma_leading_zeros_bound(s);
        assert(s.skip(0) =~= s);
        assert(1 <= run <= 0xffff_ffff);
        let rest = s.skip(run as int);
        let digits = bijective_digits(run);
        let head = digit_tokens(digits);
        let tail = rle_forward(rest);
        lemma_decode_encode(run);
        assert(runs_short(rest)) by {
            assert forall|i: int| 0 <= i <= rest.len() implies #[trigger] leading_zeros(
                rest.skip(i),
            ) <= 0xffff_ffff by {
                assert(rest.skip(i) =~= s.skip(i + run));
            }
        }
        lemma_rle_round_trip(rest);
        lemma_forward_starts(rest);
        assert(tokens == head + tail);
        lemma_leading_digits(tokens, digits);
        assert(tokens.skip(digits.len() as int) =~= tail);
        assert(leading_digits(tokens) =~= digits);
        assert(tokens[0] == RunEncoded::ZeroRun(digits[0]));
        assert(zero_bytes(run) + rest =~= s);
        assert forall|i: int| 0 <= i <= tokens.len() implies (#[trigger] leading_digits(
            tokens.skip(i),
        )).len() <= 32 by {
            if i < digits.len() {
                let part = digits.skip(i);
                let here = tokens.skip(i);
                assert forall|j: int| 0 <= j < part.len() implies here[j] == RunEncoded::ZeroRun(
                    part[j],
                ) by {
                    assert(here[j] == tokens[i + j]);
                }
                lemma_leading_digits(here, part);
                assert(here.skip(part.len() as int) =~= tail);
            } else {
                assert(tokens.skip(i) =~= tail.skip(i - digits.len()));
            }
        }
    }
}

/// A run of zeros is no longer than the bytes it stands in.
pub proof fn lemma_runs_short(s: Seq<u8>)
    requires
        s.len() <= 0xffff_ffff,
    ensures
        runs_short(s),
{
    assert forall|i: int| 0 <= i <= s.len() implies #[trigger] leading_zeros(s.skip(i))
        <= 0xffff_ffff by {
        lemma_leading_zeros_bound(s.skip(i));
    }
}

/// Replaces every run of zeros by the numeral of its length.
pub fn run_length_encode(plaintext: &[u8]) -> (out: Vec<RunEncoded>)
    requires
        runs_short(plaintext@),
    ensures
        out@ == rle_forward(plaintext@),
{
    let ghost s = plaintext@;
    let mut out: Vec<RunEncoded> = Vec::new();
    let mut index: usize = 0;
    proof {
        assert(s.skip(0) =~= s);
        assert(out@ + rle_forward(s) =~= rle_forward(s));
    }
    while index < plaintext.len()
        invariant
            index <= s.len(),
            s == plaintext@,
            runs_short(s),
            rle_forward(s) == out@ + rle_forward(s.skip(index as int)),
        decreases s.len() - index,
    {
        let ghost here = s.skip(index as int);
        let ghost done = out@;
        if plaintext[index] != 0 {
            out.push(RunEncoded::Byte(plaintext[index]));
            proof {
                assert(here.drop_first() =~= s.skip(index + 1));
                assert(done + (seq![RunEncoded::Byte(here[0])] + rle_forward(here.drop_first()))
                    =~= out@ + rle_forward(here.drop_first()));
            }
            index = index + 1;
        } else {
            let ghost start = index as int;
            let mut zeros: u32 = 0;
            proof {
                lemma_leading_zeros_bound(here);
                assert(leading_zeros(here) <= 0xffff_ffff);
            }
            while index < plaintext.len() && plaintext[index] == 0
                invariant
                    0 <= start <= index <= s.len(),
                    s == plaintext@,
                    here == s.skip(start),
                    here.len() == s.len() - start,
                    zeros == index - start,
                    leading_zeros(here) <= 0xffff_ffff,
                    forall|i: int| 0 <= i < index - start ==> here[i] == 0,
                decreases s.len() - index,
            {
                proof {
                    lemma_leading_zeros(here, index - start);
                    assert(here[index - start] == s[index as int]);
                    assert(here.skip(index - start)[0] == s[index as int]);
                    assert(leading_zeros(here.skip(index - start)) >= 1);
                }
                zeros = zeros + 1;
                index = index + 1;
            }
            proof {
                lemma_leading_zeros(here, index - start);
                if index < s.len() {
                    assert(here.skip(index - start)[0] == s[index as int]);
                }
                assert(zeros == leading_zeros(here));
                assert(zeros > 0);
            }
            let digits: Vec<Bijective> = to_bijective(zeros);
            let ghost head = digit_tokens(digits@);
            let mut d: usize = 0;
            while d < digits.len()
                invariant
                    d <= digits@.len(),
                    head == digit_tokens(digits@),
                    out@ == done + head.take(d as int),
                decreases digits@.len() - d,
            {
                out.push(RunEncoded::ZeroRun(digits[d]));
                proof {
                    assert(head.take(d + 1) =~= head.take(d as int).push(head[d as int]));
                }
                d = d + 1;
            }
            proof {
                assert(head.take(digits@.len() as int) =~= head);
                assert(here.skip(zeros as int) =~= s.skip(index as int));
                assert(done + (head + rle_forward(here.skip(zeros as int))) =~= out@ + rle_forward(
                    s.skip(index as int),
                ));
            }
        }
    }
    proof {
        assert(s.skip(index as int).len() == 0);
        assert(out@ + rle_forward(s.skip(index as int)) =~= out@);
    }
    out
}

/// Whether no run of digits in `tokens` is longer than 32 digits, so that the
/// tokens can be decoded.
pub fn runs_decodable(tokens: &[RunEncoded]) -> (fit: bool)
    ensures
        fit == runs_fit(tokens@),
{
    let ghost t = tokens@;
    let mut run: usize = 0;
    let mut index: usize = tokens.len();
    proof {
        assert(t.skip(index as int).len() == 0);
    }
    while index > 0
        invariant
            index <= t.len(),
            t == tokens@,
            run == leading_digits(t.skip(index as int)).len(),
            run <= 32,
            forall|i: int| index <= i <= t.len() ==> (#[trigger] leading_digits(t.skip(i))).len() <= 32,
        decreases index,
    {
        index = index - 1;
        proof {
            assert(t.skip(index as int).drop_first() =~= t.skip(index + 1));
            assert(t.skip(index as int)[0] == t[index as int]);
        }
        match tokens[index] {
            RunEncoded::Byte(_) => {
                run = 0;
            },
            RunEncoded::ZeroRun(_) => {
                run = run + 1;
                if run > 32 {
                    proof {
                        assert(leading_digits(t.skip(index as int)).len() > 32);
                    }
                    return false;
                }
            },
        }
    }
    true
}

/// Replaces every numeral by the run of zeros whose length it gives.
pub fn run_length_decode(cyphertext: &[RunEncoded]) -> (out: Vec<u8>)
    requires
        runs_fit(cyphertext@),
    ensures
        out@ == rle_inverse(cyphertext@),
{
    let ghost t = cyphertext@;
    let mut out: Vec<u8> = Vec::new();
    let mut index: usize = 0;
    proof {
        assert(t.skip(0) =~= t);
        assert(out@ + rle_inverse(t) =~= rle_inverse(t));
    }
    while index < cyphertext.len()
        invariant
            index <= t.len(),
            t == cyphertext@,
            runs_fit(t),
            rle_inverse(t) == out@ + rle_inverse(t.skip(index as int)),
        decreases t.len() - index,
    {
        let ghost here = t.skip(index as int);
        let ghost done = out@;
        match cyphertext[index] {
            RunEncoded::Byte(b) => {
                out.push(b);
                proof {
                    assert(here.drop_first() =~= t.skip(index + 1));
                    assert(done + (seq![b] + rle_inverse(here.drop_first())) =~= out@
                        + rle_inverse(here.drop_first()));
                }
                index = index + 1;
            },
            RunEncoded::ZeroRun(_) => {
                let ghost start = index as int;
                let mut zeros: Vec<Bijective> = Vec::new();
                let mut more: bool = true;
                proof {
                    lemma_leading_digits_bound(here);
                    assert(leading_digits(here).len() <= 32);
                }
                while more && index < cyphertext.len()
                    invariant
                        0 <= start <= index <= t.len(),
                        t == cyphertext@,
                        here == t.skip(start),
                        here.len() == t.len() - start,
                        zeros@.len() == index - start,
                        forall|i: int|
                            0 <= i < zeros@.len() ==> here[i] == RunEncoded::ZeroRun(zeros@[i]),
                        !more ==> index < t.len() && t[index as int] is Byte,
                    decreases t.len() - index + if more { 1nat } else { 0nat },
                {
                    match cyphertext[index] {
                        RunEncoded::ZeroRun(z) => {
                            proof {
                                assert(here[index - start] == t[index as int]);
                            }
                            zeros.push(z);
                            index = index + 1;
                        },
                        RunEncoded::Byte(_) => {
                            more = false;
                        },
                    }
                }
                proof {
                    lemma_leading_digits(here, zeros@);
                    let rest = here.skip(zeros@.len() as int);
                    assert(rest =~= t.skip(index as int));
                    if index < t.len() {
                        assert(rest[0] == t[index as int]);
                    }
                    assert(leading_digits(rest).len() == 0);
                    assert(leading_digits(here) =~= zeros@);
                    assert(zeros@.len() >= 1);
                }
                let count: u32 = from_bijective(zeros.as_slice());
                let mut z: u32 = 0;
                while z < count
                    invariant
                        z <= count,
                        out@ == done + zero_bytes(z as nat),
                    decreases count - z,
                {
                    out.push(0);
                    proof {
                        assert(zero_bytes((z + 1) as nat) =~= zero_bytes(z as nat).push(0u8));
                    }
                    z = z + 1;
                }
                proof {
                    assert(done + (zero_bytes(count as nat) + rle_inverse(
                        here.skip(zeros@.len() as int),
                    )) =~= out@ + rle_inverse(t.skip(index as int)));
                }
            },
        }
    }
    proof {
        assert(t.skip(index as int).len() == 0);
        assert(out@ + rle_inverse(t.skip(index as int)) =~= out@);
    }
    out
}

} // verus!
