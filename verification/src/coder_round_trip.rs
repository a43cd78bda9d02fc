//! When the arithmetic decoder finds again the codes that the encoder packed.
//!
//! The decoder sees the packed bits through a window of 64 bits. The bits of
//! the whole stream always lie within the interval of the encoder; the decoder
//! finds a code again where its window, which is those bits cut off after 64,
//! lies strictly above the lower bound of the part that the code took.

use vstd::prelude::*;
use vstd::arithmetic::power2::{lemma2_to64, lemma2_to64_rest, lemma_pow2_unfold, pow2};
use crate::arithmetic::{
    narrow, refill, same_high_bit, settled, shared_bits, shift_out, stream_bit,
    ArithmeticEncoder, DecoderState, Interval, FULL, HALF,
};
use crate::arithmetic_laws::{lemma_narrow, lemma_shared_bits};
use crate::packer::{lemma_packed, packed};

verus! {

/// Bit `p` of `bits` as a number, zero past the end.
pub open spec fn bit_value(bits: Seq<bool>, p: nat) -> nat {
    if p < bits.len() && bits[p as int] {
        1
    } else {
        0
    }
}

/// The number that the `c` bits from bit `p` on spell, first bit highest.
pub open spec fn window_value(bits: Seq<bool>, p: nat, c: nat) -> nat
    decreases c,
{
    if c == 0 {
        0
    } else {
        2 * window_value(bits, p, (c - 1) as nat) + bit_value(bits, (p + c - 1) as nat)
    }
}

/// The window of 64 bits that begins at bit `p`.
pub open spec fn window_at(bits: Seq<bool>, p: nat) -> nat {
    window_value(bits, p, 64)
}

proof fn lemma_window_bound(bits: Seq<bool>, p: nat, c: nat)
    ensures
        window_value(bits, p, c) < pow2(c),
    decreases c,
{
    lemma2_to64();
    if c > 0 {
        lemma_window_bound(bits, p, (c - 1) as nat);
        lemma_pow2_unfold(c);
    }
}

proof fn lemma_window_front(bits: Seq<bool>, p: nat, c: nat)
    ensures
        window_value(bits, p, c + 1) == bit_value(bits, p) * pow2(c) + window_value(
            bits,
            p + 1,
            c,
        ),
    decreases c,
{
    lemma2_to64();
    if c > 0 {
        lemma_window_front(bits, p, (c - 1) as nat);
        lemma_pow2_unfold(c);
        let b = bit_value(bits, p);
        let q = pow2((c - 1) as nat);
        assert(2 * (b * q) == b * (2 * q)) by (nonlinear_arith);
    } else {
        assert(window_value(bits, p, 0) == 0);
        assert(window_value(bits, p + 1, 0) == 0);
        let b = bit_value(bits, p);
        assert(b * 1 == b) by (nonlinear_arith);
    }
}

/// The window one bit on is the window shifted, with the next bit shifted in.
proof fn lemma_window_slide(bits: Seq<bool>, p: nat)
    ensures
        window_at(bits, p + 1) == shift_out(window_at(bits, p)) + bit_value(bits, p + 64),
        window_at(bits, p) == bit_value(bits, p) * HALF + window_value(bits, p + 1, 63),
        window_value(bits, p + 1, 63) < HALF,
        window_at(bits, p) <= FULL,
{
    lemma2_to64();
    lemma2_to64_rest();
    lemma_window_front(bits, p, 63);
    lemma_window_bound(bits, p + 1, 63);
    let b = bit_value(bits, p);
    assert(b * pow2(63) == if b == 1 { pow2(63) } else { 0 }) by (nonlinear_arith)
        requires
            b == 0 || b == 1,
    ;
}

/// A window that begins at a final one bit is the middle of the interval.
proof fn lemma_window_last(bits: Seq<bool>, p: nat, c: nat)
    requires
        bits.len() == p + 1,
        bits[p as int],
        c >= 1,
    ensures
        window_value(bits, p, c) == pow2((c - 1) as nat),
    decreases c,
{
    lemma2_to64();
    if c > 1 {
        lemma_window_last(bits, p, (c - 1) as nat);
        lemma_pow2_unfold((c - 1) as nat);
    } else {
        assert(window_value(bits, p, 0) == 0);
    }
}

/// Filling the window from the buffer moves it along the bits.
proof fn lemma_refill(bits: Seq<bool>, data: Seq<u8>, p: nat, count: nat)
    requires
        forall|q: nat| stream_bit(data, q) == bit_value(bits, q),
    ensures
        refill(window_at(bits, p), data, p + 64, count) == window_at(bits, p + count),
    decreases count,
{
    if count > 0 {
        lemma_refill(bits, data, p, (count - 1) as nat);
        lemma_window_slide(bits, (p + count - 1) as nat);
    }
}

proof fn lemma_first_fill(bits: Seq<bool>, data: Seq<u8>, c: nat)
    requires
        forall|q: nat| stream_bit(data, q) == bit_value(bits, q),
        c <= 64,
    ensures
        refill(0, data, 0, c) == window_value(bits, 0, c),
    decreases c,
{
    lemma2_to64();
    lemma2_to64_rest();
    if c > 0 {
        lemma_first_fill(bits, data, (c - 1) as nat);
        lemma_window_bound(bits, 0, (c - 1) as nat);
        if c - 1 < 63 {
            vstd::arithmetic::power2::lemma_pow2_strictly_increases((c - 1) as nat, 63);
        }
    }
}

/// The bits of a packed buffer are the packed bits, and zero after them.
proof fn lemma_stream_bits(bits: Seq<bool>)
    ensures
        forall|q: nat| stream_bit(packed(Seq::empty(), bits), q) == bit_value(bits, q),
{
    let data = packed(Seq::empty(), bits);
    lemma_packed(Seq::empty(), bits);
    assert forall|q: nat| stream_bit(data, q) == bit_value(bits, q) by {
        if q < bits.len() {
            assert(crate::packer::bit_at(data, 8 * Seq::<u8>::empty().len() + q as int) == bits[q as int]);
        } else if q < 8 * data.len() {
            assert(!crate::packer::bit_at(data, 8 * Seq::<u8>::empty().len() + q as int));
        }
    }
}

/// Where the window behind the shared bits lies within the settled
/// interval, the window before them lies within the interval.
proof fn lemma_settle_back(iv: Interval, bits: Seq<bool>, p: nat)
    requires
        iv.bottom < iv.top <= FULL,
        forall|i: int|
            0 <= i < shared_bits(iv).len() ==> p + i < bits.len() && bits[p + i] == shared_bits(
                iv,
            )[i],
        settled(iv).bottom <= window_at(bits, p + shared_bits(iv).len()) <= settled(iv).top,
    ensures
        iv.bottom <= window_at(bits, p) <= iv.top,
    decreases FULL + 1 - (iv.top - iv.bottom),
{
    if same_high_bit(iv.bottom, iv.top) {
        let next = Interval { bottom: shift_out(iv.bottom), top: shift_out(iv.top) };
        let rest = shared_bits(next);
        assert(shared_bits(iv) == seq![iv.bottom >= HALF] + rest);
        assert forall|i: int| 0 <= i < rest.len() implies p + 1 + i < bits.len() && bits[p + 1
            + i] == rest[i] by {
            assert(shared_bits(iv)[i + 1] == rest[i]);
        }
        assert(shared_bits(iv)[0] == (iv.bottom >= HALF));
        assert(bits[p as int] == (iv.bottom >= HALF));
        lemma_settle_back(next, bits, p + 1);
        lemma_window_slide(bits, p);
    }
}

impl ArithmeticEncoder {
    /// The part of the interval that code `k` of `codes` takes.
    pub open spec fn split_at(&self, base: u32, codes: Seq<u32>, k: nat) -> Option<Interval> {
        match self.encoded(base, codes, k) {
            None => None,
            Some(state) => narrow(
                state.interval,
                self.bound(codes, k, codes[k as int] as nat),
                self.bound(codes, k, codes[k as int] as nat + 1),
                self.bound(codes, k, base as nat),
            ),
        }
    }

    /// The bits that packing `codes` writes: those of the encoder and the
    /// closing one bit.
    pub open spec fn written_bits(&self, base: u32, codes: Seq<u32>) -> Seq<bool> {
        self.encoded(base, codes, codes.len())->0.bits.push(true)
    }

    /// The encoder gets through `codes`, and for every code but the code 0
    /// the 64 bits written from that code on spell a number above the lower
    /// bound of the part that the code takes.
    pub open spec fn decisive(&self, base: u32, codes: Seq<u32>) -> bool {
        &&& self.encoded(base, codes, codes.len()) is Some
        &&& forall|k: nat|
            k < codes.len() && codes[k as int] > 0 ==> (#[trigger] self.split_at(
                base,
                codes,
                k,
            ))->0.bottom < window_at(
                self.written_bits(base, codes),
                self.encoded(base, codes, k)->0.bits.len(),
            )
    }

    /// An encoder that gets through `k` codes got through fewer, and the bits
    /// it had written then are the first of those it has written now.
    pub proof fn lemma_encoded_prefix(&self, base: u32, codes: Seq<u32>, j: nat, k: nat)
        requires
            j <= k,
            self.encoded(base, codes, k) is Some,
        ensures
            self.encoded(base, codes, j) is Some,
            self.encoded(base, codes, j)->0.bits.len() <= self.encoded(base, codes, k)->0.bits.len(),
            self.encoded(base, codes, k)->0.bits.take(
                self.encoded(base, codes, j)->0.bits.len() as int,
            ) == self.encoded(base, codes, j)->0.bits,
        decreases k,
    {
        let now = self.encoded(base, codes, k)->0.bits;
        if j < k {
            let prev = self.encoded(base, codes, (k - 1) as nat)->0.bits;
            self.lemma_encoded_prefix(base, codes, j, (k - 1) as nat);
            let first = self.encoded(base, codes, j)->0.bits;
            assert(now.take(prev.len() as int) =~= prev);
            assert(now.take(first.len() as int) =~= prev.take(first.len() as int));
        } else {
            assert(now.take(now.len() as int) =~= now);
        }
    }

    /// The bounds of the encoder after any number of codes lie on the two
    /// sides of the middle.
    proof fn lemma_astride(&self, base: u32, codes: Seq<u32>, k: nat)
        requires
            k <= codes.len(),
            forall|i: int| 0 <= i < codes.len() ==> codes[i] < base,
            self.encoded(base, codes, k) is Some,
        ensures
            self.encoded(base, codes, k)->0.interval.bottom < HALF,
            HALF <= self.encoded(base, codes, k)->0.interval.top <= FULL,
    {
        if k > 0 {
            let at = (k - 1) as nat;
            self.lemma_encoder_bits(base, codes, at);
            let c = codes[k - 1] as nat;
            self.lemma_cumulative_monotone(codes, self.table_step(at), c + 1, base as nat);
            let prev = self.encoded(base, codes, at)->0;
            let split = self.split_at(base, codes, at)->0;
            lemma_narrow(
                prev.interval,
                self.bound(codes, at, c),
                self.bound(codes, at, c + 1),
                self.bound(codes, at, base as nat),
            );
            lemma_shared_bits(split);
        }
    }

    /// The 64 bits written from any code on spell a number within the
    /// interval that the encoder had before that code, and within the part
    /// that the code takes.
    pub proof fn lemma_window_within(&self, base: u32, codes: Seq<u32>, k: nat)
        requires
            k <= codes.len(),
            forall|i: int| 0 <= i < codes.len() ==> codes[i] < base,
            self.encoded(base, codes, codes.len()) is Some,
        ensures
            self.encoded(base, codes, k) is Some,
            ({
                let bits = self.written_bits(base, codes);
                let state = self.encoded(base, codes, k)->0;
                let w = window_at(bits, state.bits.len());
                &&& state.interval.bottom <= w <= state.interval.top
                &&& state.interval.top <= FULL
                &&& k < codes.len() ==> {
                    let split = self.split_at(base, codes, k);
                    split is Some && split->0.bottom <= w <= split->0.top
                }
            }),
        decreases codes.len() - k,
    {
        let n = codes.len();
        let bits = self.written_bits(base, codes);
        let last = self.encoded(base, codes, n)->0;
        self.lemma_encoded_prefix(base, codes, k, n);
        let state = self.encoded(base, codes, k)->0;
        self.lemma_astride(base, codes, k);
        if k == n {
            lemma2_to64();
            lemma2_to64_rest();
            lemma_window_last(bits, last.bits.len(), 64);
        } else {
            self.lemma_window_within(base, codes, k + 1);
            self.lemma_encoded_prefix(base, codes, k + 1, n);
            let next = self.encoded(base, codes, k + 1)->0;
            let split = self.split_at(base, codes, k)->0;
            let c = codes[k as int] as nat;
            self.lemma_cumulative_monotone(codes, self.table_step(k), c + 1, base as nat);
            self.lemma_encoder_bits(base, codes, k);
            lemma_narrow(
                state.interval,
                self.bound(codes, k, c),
                self.bound(codes, k, c + 1),
                self.bound(codes, k, base as nat),
            );
            let shared = shared_bits(split);
            assert(next.bits == state.bits + shared);
            assert forall|i: int| 0 <= i < shared.len() implies state.bits.len() + i < bits.len()
                && bits[state.bits.len() + i] == shared[i] by {
                assert(last.bits.take(next.bits.len() as int)[state.bits.len() + i]
                    == next.bits[state.bits.len() + i]);
            }
            lemma_settle_back(split, bits, state.bits.len());
        }
    }

    /// The decoder that reads what was packed stands after `k` codes where
    /// the encoder stood after them.
    pub proof fn lemma_decoder_keeps_step(&self, base: u32, codes: Seq<u32>, k: nat)
        requires
            k <= codes.len(),
            forall|i: int| 0 <= i < codes.len() ==> codes[i] < base,
            self.decisive(base, codes),
        ensures
            self.encoded(base, codes, k) is Some,
            self.decoded(base, packed(Seq::empty(), self.written_bits(base, codes)), k) == Some(
                DecoderState {
                    interval: self.encoded(base, codes, k)->0.interval,
                    window: window_at(
                        self.written_bits(base, codes),
                        self.encoded(base, codes, k)->0.bits.len(),
                    ),
                    pos: self.encoded(base, codes, k)->0.bits.len() + 64,
                    out: codes.take(k as int),
                },
            ),
        decreases k,
    {
        let bits = self.written_bits(base, codes);
        let data = packed(Seq::empty(), bits);
        lemma_stream_bits(bits);
        self.lemma_encoded_prefix(base, codes, k, codes.len());
        if k == 0 {
            lemma_first_fill(bits, data, 64);
            assert(codes.take(0) =~= Seq::<u32>::empty());
        } else {
            let at = (k - 1) as nat;
            self.lemma_decoder_keeps_step(base, codes, at);
            self.lemma_window_within(base, codes, at);
            let before = self.encoded(base, codes, at)->0;
            let prev = self.decoded(base, data, at)->0;
            let iv = before.interval;
            let c = codes[k - 1] as nat;
            let seen = codes.take(at as int);
            let step = self.table_step(at);
            self.lemma_table_step(at);
            assert(codes.take(seen.len() as int) == seen);
            self.lemma_cumulative_prefix(seen, codes, step, base as nat);
            self.lemma_cumulative_prefix(seen, codes, step, c);
            self.lemma_cumulative_prefix(seen, codes, step, c + 1);
            let total = self.bound(codes, at, base as nat);
            let size = ((iv.top - iv.bottom) / (total as int)) as nat;
            let split = self.split_at(base, codes, at)->0;
            assert(split.bottom == iv.bottom + size * self.bound(codes, at, c));
            assert(split.top == iv.bottom + size * self.bound(codes, at, c + 1));
            assert forall|j: int| 0 <= j < c implies iv.bottom + size * #[trigger] self.bound(
                seen,
                at,
                (j + 1) as nat,
            ) < prev.window by {
                self.lemma_cumulative_prefix(seen, codes, step, (j + 1) as nat);
                self.lemma_cumulative_monotone(codes, step, (j + 1) as nat, c);
                let a = self.bound(codes, at, (j + 1) as nat);
                let b = self.bound(codes, at, c);
                assert(size * a <= size * b) by (nonlinear_arith)
                    requires
                        a <= b,
                ;
                assert(c > 0);
                assert(self.split_at(base, codes, at)->0.bottom < window_at(
                    bits,
                    before.bits.len(),
                ));
            }
            self.lemma_locate(seen, at, base as nat, iv.bottom, size, prev.window, 0, c);
            lemma_refill(bits, data, before.bits.len(), shared_bits(split).len());
            assert(codes.take(k as int) =~= seen.push(codes[k - 1]));
        }
    }

    /// Unpacking what was packed gives the codes back wherever the encoder is
    /// decisive.
    pub proof fn lemma_coder_round_trip(&self, base: u32, codes: Seq<u32>)
        requires
            forall|i: int| 0 <= i < codes.len() ==> codes[i] < base,
            self.decisive(base, codes),
        ensures
            self.pack_spec(Seq::empty(), codes, base) is Some,
            self.unpack_spec(self.pack_spec(Seq::empty(), codes, base)->0, base, codes.len())
                == Some(codes),
    {
        self.lemma_decoder_keeps_step(base, codes, codes.len());
        assert(codes.take(codes.len() as int) =~= codes);
    }
}

/// The coder with the parameters `enc` finds `codes` again in what it packs
/// them to.
pub open spec fn coder_round_trips(enc: ArithmeticEncoder, codes: Seq<u32>, base: u32) -> bool {
    enc.pack_spec(Seq::empty(), codes, base) matches Some(bytes) && enc.unpack_spec(
        bytes,
        base,
        codes.len(),
    ) == Some(codes)
}

impl ArithmeticEncoder {
    /// A decoder that gets through `k` codes got through fewer, and the codes
    /// it had found then are the first of those it has found now.
    pub proof fn lemma_decoded_prefix(&self, base: u32, data: Seq<u8>, j: nat, k: nat)
        requires
            j <= k,
            self.decoded(base, data, k) is Some,
        ensures
            self.decoded(base, data, j) is Some,
            self.decoded(base, data, k)->0.out.len() == k,
            self.decoded(base, data, j)->0.out == self.decoded(base, data, k)->0.out.take(
                j as int,
            ),
        decreases k,
    {
        let now = self.decoded(base, data, k)->0.out;
        if k > 0 {
            self.lemma_decoded_prefix(base, data, (k - 1) as nat, (k - 1) as nat);
            let prev = self.decoded(base, data, (k - 1) as nat)->0.out;
            assert(now.drop_last() == prev);
            if j < k {
                self.lemma_decoded_prefix(base, data, j, (k - 1) as nat);
                assert(prev.take(j as int) =~= now.take(j as int));
            } else {
                assert(now.take(k as int) =~= now);
            }
        } else {
            assert(now.take(0) =~= now);
        }
    }

    /// The search for a code passes only codes whose upper bound lies below
    /// the window.
    pub proof fn lemma_locate_passed(
        &self,
        codes: Seq<u32>,
        k: nat,
        base: nat,
        bottom: nat,
        step: nat,
        v: nat,
        c: nat,
        j: nat,
    )
        requires
            c <= j < self.locate(codes, k, base, bottom, step, v, c),
        ensures
            bottom + step * self.bound(codes, k, j + 1) < v,
        decreases base - c,
    {
        if !(c + 1 >= base || bottom + step * self.bound(codes, k, c + 1) >= v) {
            if j > c {
                self.lemma_locate_passed(codes, k, base, bottom, step, v, c + 1, j);
            }
        }
    }

    /// The window of a decoder that finds the packed codes again shows the
    /// 64 bits written from the next code on.
    proof fn lemma_decoder_window(&self, base: u32, codes: Seq<u32>, k: nat)
        requires
            k <= codes.len(),
            forall|i: int| 0 <= i < codes.len() ==> codes[i] < base,
            coder_round_trips(*self, codes, base),
        ensures
            self.encoded(base, codes, k) is Some,
            self.decoded(base, packed(Seq::empty(), self.written_bits(base, codes)), k) is Some,
            ({
                let found = self.decoded(
                    base,
                    packed(Seq::empty(), self.written_bits(base, codes)),
                    k,
                )->0;
                let state = self.encoded(base, codes, k)->0;
                &&& found.out == codes.take(k as int)
                &&& found.interval == state.interval
                &&& found.pos == state.bits.len() + 64
                &&& found.window == window_at(self.written_bits(base, codes), state.bits.len())
            }),
        decreases k,
    {
        let bits = self.written_bits(base, codes);
        let data = packed(Seq::empty(), bits);
        let n = codes.len();
        lemma_stream_bits(bits);
        self.lemma_decoded_prefix(base, data, k, n);
        self.lemma_decoder_follows(base, data, codes, k);
        if k == 0 {
            lemma_first_fill(bits, data, 64);
        } else {
            let at = (k - 1) as nat;
            self.lemma_decoder_window(base, codes, at);
            let prev = self.decoded(base, data, at)->0;
            let before = self.encoded(base, codes, at)->0;
            let seen = prev.out;
            assert(seen == codes.take(at as int));
            assert(codes.take(seen.len() as int) == seen);
            let step = self.table_step(at);
            self.lemma_table_step(at);
            let c = codes[k - 1] as nat;
            self.lemma_cumulative_prefix(seen, codes, step, base as nat);
            self.lemma_cumulative_prefix(seen, codes, step, c);
            self.lemma_cumulative_prefix(seen, codes, step, c + 1);
            let now = self.decoded(base, data, k)->0;
            let iv = prev.interval;
            let total = self.bound(seen, at, base as nat);
            let size = ((iv.top - iv.bottom) / (total as int)) as nat;
            let found = self.locate(seen, at, base as nat, iv.bottom, size, prev.window, 0);
            self.lemma_locate_range(seen, at, base as nat, iv.bottom, size, prev.window, 0);
            assert(now.out == seen.push(found as u32));
            assert(now.out.last() == codes.take(k as int).last());
            assert(found == c);
            let split = self.split_at(base, codes, at)->0;
            lemma_refill(bits, data, before.bits.len(), shared_bits(split).len());
        }
    }

    /// The encoder is decisive on all codes that the coder finds again: the
    /// decisive inputs are those on which unpacking undoes packing, and no
    /// others.
    pub proof fn lemma_round_trip_is_decisive(&self, base: u32, codes: Seq<u32>)
        requires
            forall|i: int| 0 <= i < codes.len() ==> codes[i] < base,
            coder_round_trips(*self, codes, base),
        ensures
            self.decisive(base, codes),
    {
        let bits = self.written_bits(base, codes);
        let data = packed(Seq::empty(), bits);
        assert forall|k: nat| k < codes.len() && codes[k as int] > 0 implies (
        #[trigger] self.split_at(base, codes, k))->0.bottom < window_at(
            bits,
            self.encoded(base, codes, k)->0.bits.len(),
        ) by {
            self.lemma_decoder_window(base, codes, k);
            self.lemma_decoder_window(base, codes, k + 1);
            let prev = self.decoded(base, data, k)->0;
            let now = self.decoded(base, data, k + 1)->0;
            let seen = prev.out;
            assert(codes.take(seen.len() as int) == seen);
            let step = self.table_step(k);
            self.lemma_table_step(k);
            let c = codes[k as int] as nat;
            self.lemma_cumulative_prefix(seen, codes, step, base as nat);
            self.lemma_cumulative_prefix(seen, codes, step, c);
            let iv = prev.interval;
            let total = self.bound(seen, k, base as nat);
            let size = ((iv.top - iv.bottom) / (total as int)) as nat;
            let found = self.locate(seen, k, base as nat, iv.bottom, size, prev.window, 0);
            self.lemma_locate_range(seen, k, base as nat, iv.bottom, size, prev.window, 0);
            assert(now.out == seen.push(found as u32));
            assert(now.out.last() == codes.take((k + 1) as int).last());
            assert(found == c);
            self.lemma_locate_passed(
                seen,
                k,
                base as nat,
                iv.bottom,
                size,
                prev.window,
                0,
                (c - 1) as nat,
            );
        }
    }
}

} // verus!
