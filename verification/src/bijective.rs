//! Bijective base-2 numerals: the digits in which zero-run lengths are written.
//!
//! Every positive integer has exactly one numeral over the digits `A` (worth one)
//! and `B` (worth two); numerals are stored least significant digit first.

use vstd::prelude::*;
use vstd::arithmetic::power2::{pow2, lemma_pow2_unfold, lemma2_to64, lemma_pow2_strictly_increases};

verus! {

/// One digit of a bijective base-2 numeral.
#[derive(Debug, Clone, Copy, PartialEq, Eq, Structural)]
pub enum Bijective {
    A,
    B,
}

/// The bit a digit stands for: `A` is 0, `B` is 1.
pub open spec fn digit_bit(d: Bijective) -> nat {
    match d {
        Bijective::A => 0,
        Bijective::B => 1,
    }
}

/// The digits read as an ordinary binary number, least significant first.
pub open spec fn digit_sum(s: Seq<Bijective>) -> nat
    decreases s.len(),
{
    if s.len() == 0 {
        0
    } else {
        digit_bit(s[0]) + 2 * digit_sum(s.drop_first())
    }
}

/// The number a numeral denotes: its binary reading plus `2^k - 1` for `k` digits.
pub open spec fn bijective_value(s: Seq<Bijective>) -> nat {
    (digit_sum(s) + pow2(s.len()) - 1) as nat
}

/// The numeral of `n`; the empty numeral for zero.
pub open spec fn bijective_digits(n: nat) -> Seq<Bijective>
    decreases n,
{
    if n == 0 {
        Seq::empty()
    } else if n % 2 == 1 {
        seq![Bijective::A] + bijective_digits(((n - 1) / 2) as nat)
    } else {
        seq![Bijective::B] + bijective_digits(((n - 2) / 2) as nat)
    }
}

/// What decoding a numeral gives: its value, except that every numeral of
/// 32 digits is read as the largest 32-bit number.
pub open spec fn decoded_value(s: Seq<Bijective>) -> nat {
    if s.len() == 32 {
        0xffff_ffff
    } else {
        bijective_value(s)
    }
}

pub open spec fn all_a(s: Seq<Bijective>) -> bool {
    forall|i: int| 0 <= i < s.len() ==> s[i] == Bijective::A
}

/// Prepending a digit doubles the rest and adds the digit's worth.
pub proof fn lemma_value_unfold(s: Seq<Bijective>)
    requires
        s.len() > 0,
    ensures
        bijective_value(s) == digit_bit(s[0]) + 1 + 2 * bijective_value(s.drop_first()),
{
    lemma_pow2_unfold(s.len());
    assert(s.drop_first().len() == s.len() - 1);
    assert(pow2(s.drop_first().len()) >= 1) by {
        lemma_pow2_strictly_increases(0, s.len());
        lemma2_to64();
    }
}

/// Appending a digit adds its worth at the next power of two.
pub proof fn lemma_value_push(s: Seq<Bijective>, d: Bijective)
    ensures
        bijective_value(s.push(d)) == bijective_value(s) + (digit_bit(d) + 1) * pow2(s.len()),
    decreases s.len(),
{
    lemma2_to64();
    if s.len() == 0 {
        let t = s.push(d);
        assert(t.drop_first() =~= Seq::<Bijective>::empty());
        lemma_value_unfold(t);
        assert(digit_sum(Seq::<Bijective>::empty()) == 0);
        assert(digit_sum(s) == 0);
    } else {
        let t = s.push(d);
        assert(t.drop_first() =~= s.drop_first().push(d));
        assert(t[0] == s[0]);
        lemma_value_unfold(t);
        lemma_value_unfold(s);
        lemma_value_push(s.drop_first(), d);
        lemma_pow2_unfold(s.len());
        let p = pow2((s.len() - 1) as nat);
        let w = digit_bit(d) + 1;
        assert(w * (2 * p) == 2 * (w * p)) by (nonlinear_arith);
    }
}

/// A numeral of `k` digits denotes a number from `2^k - 1` to `2^(k+1) - 2`.
pub proof fn lemma_value_bounds(s: Seq<Bijective>)
    ensures
        pow2(s.len()) - 1 <= bijective_value(s) <= 2 * pow2(s.len()) - 2,
        all_a(s) <==> bijective_value(s) == pow2(s.len()) - 1,
    decreases s.len(),
{
    lemma2_to64();
    if s.len() == 0 {
        assert(digit_sum(s) == 0);
    } else {
        let r = s.drop_first();
        lemma_value_unfold(s);
        lemma_value_bounds(r);
        lemma_pow2_unfold(s.len());
        if all_a(s) {
            assert forall|i: int| 0 <= i < r.len() implies r[i] == Bijective::A by {
                assert(r[i] == s[i + 1]);
            }
        }
        if bijective_value(s) == pow2(s.len()) - 1 {
            assert(all_a(r));
            assert forall|i: int| 0 <= i < s.len() implies s[i] == Bijective::A by {
                if i > 0 {
                    assert(s[i] == r[i - 1]);
                }
            }
        }
    }
}

/// Every number is the value of its numeral.
pub proof fn lemma_value_of_digits(n: nat)
    ensures
        bijective_value(bijective_digits(n)) == n,
    decreases n,
{
    lemma2_to64();
    if n == 0 {
        assert(digit_sum(Seq::<Bijective>::empty()) == 0);
    } else {
        let d = if n % 2 == 1 { Bijective::A } else { Bijective::B };
        let m = ((n - 1 - digit_bit(d)) / 2) as nat;
        let s = bijective_digits(n);
        assert(s == seq![d] + bijective_digits(m));
        assert(s.drop_first() =~= bijective_digits(m));
        assert(s[0] == d);
        lemma_value_of_digits(m);
        lemma_value_unfold(s);
    }
}

/// Every numeral is the numeral of its value.
pub proof fn lemma_digits_of_value(s: Seq<Bijective>)
    ensures
        bijective_digits(bijective_value(s)) == s,
    decreases s.len(),
{
    lemma2_to64();
    if s.len() == 0 {
        assert(digit_sum(s) == 0);
        assert(s =~= Seq::<Bijective>::empty());
    } else {
        let r = s.drop_first();
        lemma_value_unfold(s);
        lemma_digits_of_value(r);
        let n = bijective_value(s);
        let m = bijective_value(r);
        assert(n == digit_bit(s[0]) + 1 + 2 * m);
        assert(bijective_digits(n) =~= seq![s[0]] + bijective_digits(m));
        assert(seq![s[0]] + r =~= s);
    }
}

/// The numeral of `n` has as many digits as `n + 1` has bits, less one.
pub proof fn lemma_digits_len(n: nat, k: nat)
    requires
        n <= 2 * pow2(k) - 2,
    ensures
        bijective_digits(n).len() <= k,
    decreases k,
{
    lemma2_to64();
    if n == 0 {
    } else {
        if k == 0 {
            assert(false);
        } else {
            lemma_pow2_unfold(k);
            let d = if n % 2 == 1 { Bijective::A } else { Bijective::B };
            let m = ((n - 1 - digit_bit(d)) / 2) as nat;
            assert(bijective_digits(n) == seq![d] + bijective_digits(m));
            lemma_digits_len(m, (k - 1) as nat);
        }
    }
}

/// A numeral has no more digits than the number it denotes has units.
pub proof fn lemma_digits_short(n: nat)
    ensures
        bijective_digits(n).len() <= n,
    decreases n,
{
    if n > 0 {
        let d = if n % 2 == 1 { Bijective::A } else { Bijective::B };
        let m = ((n - 1 - digit_bit(d)) / 2) as nat;
        assert(bijective_digits(n) == seq![d] + bijective_digits(m));
        lemma_digits_short(m);
    }
}

/// Encoding then decoding gives back every number from 1 to `2^32 - 1`.
pub proof fn lemma_decode_encode(n: nat)
    requires
        1 <= n <= 0xffff_ffff,
    ensures
        1 <= bijective_digits(n).len() <= 32,
        decoded_value(bijective_digits(n)) == n,
{
    lemma2_to64();
    let s = bijective_digits(n);
    lemma_value_of_digits(n);
    assert(pow2(33) == 2 * pow2(32)) by {
        lemma_pow2_unfold(33);
    }
    lemma_digits_len(n, 32);
    lemma_value_bounds(s);
    if s.len() == 0 {
        assert(digit_sum(s) == 0);
    }
}

/// Decoding then encoding gives back every numeral of 1 to 31 digits, and the
/// numeral of 32 digits that are all `A`. Other numerals of 32 digits denote
/// numbers beyond 32 bits and are all decoded to `2^32 - 1`.
pub proof fn lemma_encode_decode(s: Seq<Bijective>)
    requires
        1 <= s.len() <= 32,
        s.len() == 32 ==> all_a(s),
    ensures
        1 <= decoded_value(s) <= 0xffff_ffff,
        bijective_digits(decoded_value(s)) == s,
{
    lemma2_to64();
    lemma_value_bounds(s);
    lemma_digits_of_value(s);
    if s.len() < 32 {
        lemma_pow2_strictly_increases(s.len(), 32);
        lemma_pow2_strictly_increases(0, s.len());
    }
}

/// Writes the positive number `num` as a bijective numeral.
pub fn to_bijective(num: u32) -> (out: Vec<Bijective>)
    requires
        num > 0,
    ensures
        out@ == bijective_digits(num as nat),
        bijective_value(out@) == num,
        1 <= out@.len() <= 32,
{
    let mut out: Vec<Bijective> = Vec::new();
    let mut rest: u32 = num;
    while rest > 0
        invariant
            bijective_digits(num as nat) == out@ + bijective_digits(rest as nat),
        decreases rest,
    {
        let ghost before = out@;
        if rest % 2 == 1 {
            out.push(Bijective::A);
            rest = (rest - 1) / 2;
            assert(before + (seq![Bijective::A] + bijective_digits(rest as nat)) =~= out@
                + bijective_digits(rest as nat));
        } else {
            out.push(Bijective::B);
            rest = (rest - 2) / 2;
            assert(before + (seq![Bijective::B] + bijective_digits(rest as nat)) =~= out@
                + bijective_digits(rest as nat));
        }
    }
    proof {
        assert(out@ + bijective_digits(0) =~= out@);
        lemma_decode_encode(num as nat);
        lemma_value_of_digits(num as nat);
    }
    out
}

/// Reads a bijective numeral of at most 32 digits.
pub fn from_bijective(num: &[Bijective]) -> (out: u32)
    requires
        num@.len() <= 32,
    ensures
        out == decoded_value(num@),
{
    if num.len() == 32 {
        return 0xffff_ffff;
    }
    let mut out: u64 = 0;
    let mut bit: u64 = 1;
    let mut index: usize = 0;
    proof {
        lemma2_to64();
        assert(num@.take(0) =~= Seq::<Bijective>::empty());
        assert(digit_sum(Seq::<Bijective>::empty()) == 0);
    }
    while index < num.len()
        invariant
            index <= num@.len() < 32,
            bit == pow2(index as nat),
            out == bijective_value(num@.take(index as int)),
        decreases num@.len() - index,
    {
        proof {
            lemma_value_push(num@.take(index as int), num@[index as int]);
            assert(num@.take(index as int).push(num@[index as int]) =~= num@.take(index + 1));
            lemma_value_bounds(num@.take(index + 1));
            lemma_pow2_unfold((index + 1) as nat);
            lemma_pow2_strictly_increases((index + 1) as nat, 32);
            lemma2_to64();
            let p = pow2(index as nat);
            assert(1 * p == p && 2 * p == p + p) by (nonlinear_arith);
        }
        match num[index] {
            Bijective::A => {
                out = out + bit;
            },
            Bijective::B => {
                out = out + 2 * bit;
            },
        }
        bit = 2 * bit;
        index = index + 1;
    }
    proof {
        assert(num@.take(index as int) =~= num@);
        lemma_value_bounds(num@);
        lemma_pow2_strictly_increases(num@.len(), 32);
        lemma2_to64();
    }
    out as u32
}

} // verus!
