//! What holds of the arithmetic coder on every input: how many bits it
//! writes, and how many a decoder reads that finds the codes again.

use vstd::prelude::*;
use vstd::arithmetic::power2::{lemma2_to64, lemma2_to64_rest, lemma_pow2_strictly_increases, lemma_pow2_unfold, pow2};
use crate::arithmetic::{
    narrow, same_high_bit, settled, shared_bits, shift_out, ArithmeticEncoder, Interval, FULL,
};
use crate::packer::lemma_packed;

verus! {

/// The bounds of an interval share fewer than 64 leading bits, and shifting
/// them out leaves an interval that is not empty.
pub proof fn lemma_shared_bits(iv: Interval)
    requires
        iv.bottom < iv.top <= FULL,
    ensures
        shared_bits(iv).len() <= 63,
        settled(iv).bottom < settled(iv).top <= FULL,
        !same_high_bit(settled(iv).bottom, settled(iv).top),
{
    lemma_shared_bits_scaled(iv);
    lemma2_to64();
    lemma2_to64_rest();
    let n = shared_bits(iv).len();
    if n >= 64 {
        if n > 64 {
            lemma_pow2_strictly_increases(64, n);
        }
        let d = (iv.top - iv.bottom) as nat;
        let p = pow2(n);
        assert(d * p >= p) by (nonlinear_arith)
            requires
                d >= 1,
        ;
    }
}

proof fn lemma_shared_bits_scaled(iv: Interval)
    requires
        iv.bottom < iv.top <= FULL,
    ensures
        (iv.top - iv.bottom) * pow2(shared_bits(iv).len()) <= FULL,
        settled(iv).bottom < settled(iv).top <= FULL,
        !same_high_bit(settled(iv).bottom, settled(iv).top),
    decreases FULL + 1 - (iv.top - iv.bottom),
{
    lemma2_to64();
    if same_high_bit(iv.bottom, iv.top) {
        let next = Interval { bottom: shift_out(iv.bottom), top: shift_out(iv.top) };
        lemma_shared_bits_scaled(next);
        let n = shared_bits(next).len();
        assert(shared_bits(iv).len() == n + 1);
        lemma_pow2_unfold(n + 1);
        let d = (iv.top - iv.bottom) as int;
        let p = pow2(n) as int;
        assert((2 * d) * p == d * (2 * p)) by (nonlinear_arith);
    } else {
        let d = (iv.top - iv.bottom) as int;
        assert(d * 1 == d) by (nonlinear_arith);
    }
}

/// The part of an interval that a code takes lies within the interval and is
/// not empty.
pub proof fn lemma_narrow(iv: Interval, lower: nat, upper: nat, total: nat)
    requires
        iv.bottom <= iv.top <= FULL,
        upper <= total,
        narrow(iv, lower, upper, total) is Some,
    ensures
        iv.bottom <= narrow(iv, lower, upper, total)->0.bottom,
        narrow(iv, lower, upper, total)->0.bottom < narrow(iv, lower, upper, total)->0.top,
        narrow(iv, lower, upper, total)->0.top <= iv.top,
{
    let diff = (iv.top - iv.bottom) as int;
    let step = diff / (total as int);
    vstd::arithmetic::div_mod::lemma_fundamental_div_mod(diff, total as int);
    assert(step * lower < step * upper) by (nonlinear_arith)
        requires
            step >= 1,
            lower < upper,
    ;
    assert(step * upper <= total * step) by (nonlinear_arith)
        requires
            upper <= total,
            step >= 0,
    ;
}

impl ArithmeticEncoder {
    /// For every code the encoder writes at most 63 bits, and its interval is
    /// never empty.
    pub proof fn lemma_encoder_bits(&self, base: u32, codes: Seq<u32>, k: nat)
        requires
            k <= codes.len(),
            forall|i: int| 0 <= i < codes.len() ==> codes[i] < base,
            self.encoded(base, codes, k) is Some,
        ensures
            self.encoded(base, codes, k)->0.bits.len() <= 63 * k,
            self.encoded(base, codes, k)->0.interval.bottom < self.encoded(
                base,
                codes,
                k,
            )->0.interval.top,
            self.encoded(base, codes, k)->0.interval.top <= FULL,
        decreases k,
    {
        if k > 0 {
            let at = (k - 1) as nat;
            let prev = self.encoded(base, codes, at)->0;
            self.lemma_encoder_bits(base, codes, at);
            let c = codes[k - 1] as nat;
            self.lemma_cumulative_monotone(codes, self.table_step(at), c + 1, base as nat);
            let lower = self.bound(codes, at, c);
            let upper = self.bound(codes, at, c + 1);
            let total = self.bound(codes, at, base as nat);
            lemma_narrow(prev.interval, lower, upper, total);
            lemma_shared_bits(narrow(prev.interval, lower, upper, total)->0);
        }
    }

    /// What packing gives is longer than the bytes before it by at most eight
    /// bytes for every code, and one more.
    pub proof fn lemma_packed_length(&self, front: Seq<u8>, codes: Seq<u32>, base: u32)
        requires
            forall|i: int| 0 <= i < codes.len() ==> codes[i] < base,
            self.pack_spec(front, codes, base) is Some,
        ensures
            front.len() < self.pack_spec(front, codes, base)->0.len() <= front.len() + 8
                * codes.len() + 1,
            self.pack_spec(front, codes, base)->0.take(front.len() as int) == front,
    {
        let end = self.encoded(base, codes, codes.len())->0;
        self.lemma_encoder_bits(base, codes, codes.len());
        lemma_packed(front, end.bits.push(true));
    }

    /// The search for a code ends at a code below `base`, or where it began.
    pub proof fn lemma_locate_range(
        &self,
        codes: Seq<u32>,
        k: nat,
        base: nat,
        bottom: nat,
        step: nat,
        v: nat,
        c: nat,
    )
        ensures
            c <= self.locate(codes, k, base, bottom, step, v, c),
            self.locate(codes, k, base, bottom, step, v, c) < base || self.locate(
                codes,
                k,
                base,
                bottom,
                step,
                v,
                c,
            ) == c,
        decreases base - c,
    {
        if !(c + 1 >= base || bottom + step * self.bound(codes, k, c + 1) >= v) {
            self.lemma_locate_range(codes, k, base, bottom, step, v, c + 1);
        }
    }

    /// A decoder that finds the codes again went through the intervals of
    /// the encoder, and asked for as many bits as the encoder wrote for
    /// those codes, and 64 more.
    pub proof fn lemma_decoder_follows(
        &self,
        base: u32,
        data: Seq<u8>,
        codes: Seq<u32>,
        k: nat,
    )
        requires
            k <= codes.len(),
            self.decoded(base, data, k) is Some,
            self.decoded(base, data, k)->0.out == codes.take(k as int),
        ensures
            self.encoded(base, codes, k) is Some,
            self.encoded(base, codes, k)->0.interval == self.decoded(base, data, k)->0.interval,
            self.decoded(base, data, k)->0.pos == 64 + self.encoded(base, codes, k)->0.bits.len(),
        decreases k,
    {
        if k > 0 {
            let at = (k - 1) as nat;
            let prev = self.decoded(base, data, at)->0;
            let now = self.decoded(base, data, k)->0;
            assert(now.out.drop_last() == prev.out);
            assert(codes.take(k as int).drop_last() =~= codes.take(at as int));
            self.lemma_decoder_follows(base, data, codes, at);
            let before = prev.interval;
            let total = self.bound(prev.out, at, base as nat);
            let size = ((before.top - before.bottom) / (total as int)) as nat;
            let found = self.locate(prev.out, at, base as nat, before.bottom, size, prev.window, 0);
            self.lemma_locate_range(prev.out, at, base as nat, before.bottom, size, prev.window, 0);
            assert(now.out == prev.out.push(found as u32));
            let c = now.out.last() as nat;
            assert(c == found);
            assert(now.out.last() == codes.take(k as int).last());
            assert(c == codes[k - 1]);
            assert(prev.out.len() == at);
            assert(codes.take(prev.out.len() as int) == prev.out);
            let step = self.table_step(at);
            self.lemma_table_step(at);
            self.lemma_cumulative_prefix(prev.out, codes, step, c);
            self.lemma_cumulative_prefix(prev.out, codes, step, c + 1);
            self.lemma_cumulative_prefix(prev.out, codes, step, base as nat);
        }
    }

    /// Where unpacking finds the packed codes again, the decoder has asked for
    /// no more bits than the encoder wrote, and 64 more.
    pub proof fn lemma_bits_read(&self, base: u32, data: Seq<u8>, codes: Seq<u32>)
        requires
            self.unpack_spec(data, base, codes.len()) == Some(codes),
        ensures
            self.encoded(base, codes, codes.len()) is Some,
            self.decoded(base, data, codes.len())->0.pos <= self.encoded(
                base,
                codes,
                codes.len(),
            )->0.bits.len() + 1 + 64,
    {
        assert(codes.take(codes.len() as int) =~= codes);
        self.lemma_decoder_follows(base, data, codes, codes.len());
    }
}

} // verus!
