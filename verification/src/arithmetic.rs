//! An adaptive order-0 arithmetic coder over a 64-bit interval.
//!
//! The frequency of a code is a fixed padding plus the number of times the code
//! occurs among the most recent codes. The cumulative table that splits the
//! interval is rebuilt only at every `recalculation_frequency`-th code, so the
//! coder works with a table that may be stale.

use vstd::prelude::*;
use std::collections::VecDeque;
use vstd::arithmetic::div_mod::{lemma_fundamental_div_mod, lemma_fundamental_div_mod_converse};
use crate::endian::{le_bytes, le_value, push_u32, read_u32};
use crate::packer::{bit_at, packed, Packer, Unpacker, PackerView, window, bits_value, lemma_push_one, lemma_push_bits_push};

verus! {

/// The weight of the highest bit of the interval's bounds.
pub const HALF: u64 = 0x8000_0000_0000_0000;

/// The largest bound of the interval.
pub const FULL: u64 = 0xffff_ffff_ffff_ffff;

/// The parameters of the frequency model.
#[derive(Debug, Clone, Copy, PartialEq, Eq, Structural)]
pub struct ArithmeticEncoder {
    /// How many of the most recent codes count towards the frequencies.
    pub frequency_memory: u32,
    /// The frequency every code has before it has occurred.
    pub frequency_padding: u32,
    /// After how many codes the cumulative table is rebuilt.
    pub recalculation_frequency: u32,
}

/// The interval between two 64-bit bounds.
pub struct Interval {
    pub bottom: nat,
    pub top: nat,
}

/// How often `c` occurs in `s`.
pub open spec fn occurrences(s: Seq<u32>, c: u32) -> nat
    decreases s.len(),
{
    if s.len() == 0 {
        0
    } else {
        occurrences(s.drop_last(), c) + if s.last() == c { 1nat } else { 0nat }
    }
}

/// A bound with its highest bit dropped and a zero bit shifted in below.
pub open spec fn shift_out(x: nat) -> nat {
    if x >= HALF {
        (2 * (x - HALF)) as nat
    } else {
        2 * x
    }
}

pub open spec fn same_high_bit(a: nat, b: nat) -> bool {
    (a >= HALF) == (b >= HALF)
}

/// The part of the interval that a code with cumulative bounds `lower` and
/// `upper` out of `total` takes. There is none where the interval is narrower
/// than `total`, or where the code has no frequency.
pub open spec fn narrow(iv: Interval, lower: nat, upper: nat, total: nat) -> Option<Interval> {
    if total == 0 || iv.top < iv.bottom || (iv.top - iv.bottom) / (total as int) == 0 || lower
        >= upper {
        None
    } else {
        let step = ((iv.top - iv.bottom) / (total as int)) as nat;
        Some(Interval { bottom: iv.bottom + step * lower, top: iv.bottom + step * upper })
    }
}

/// The leading bits that the two bounds of a non-empty interval have in common,
/// highest first.
pub open spec fn shared_bits(iv: Interval) -> Seq<bool>
    decreases FULL + 1 - (iv.top - iv.bottom),
{
    if iv.bottom < iv.top <= FULL && same_high_bit(iv.bottom, iv.top) {
        seq![iv.bottom >= HALF] + shared_bits(
            Interval { bottom: shift_out(iv.bottom), top: shift_out(iv.top) },
        )
    } else {
        Seq::empty()
    }
}

/// The interval once the leading bits that its bounds share are shifted out.
pub open spec fn settled(iv: Interval) -> Interval
    decreases FULL + 1 - (iv.top - iv.bottom),
{
    if iv.bottom < iv.top <= FULL && same_high_bit(iv.bottom, iv.top) {
        settled(Interval { bottom: shift_out(iv.bottom), top: shift_out(iv.top) })
    } else {
        iv
    }
}

/// Bit `p` of the buffer, or zero past its end.
pub open spec fn stream_bit(data: Seq<u8>, p: nat) -> nat {
    if p < 8 * data.len() && bit_at(data, p as int) {
        1
    } else {
        0
    }
}

/// The 64-bit reading window after `count` more bits, from bit `pos` of the
/// buffer on, are shifted in from below.
pub open spec fn refill(v: nat, data: Seq<u8>, pos: nat, count: nat) -> nat
    decreases count,
{
    if count == 0 {
        v
    } else {
        shift_out(refill(v, data, pos, (count - 1) as nat)) + stream_bit(
            data,
            (pos + count - 1) as nat,
        )
    }
}

/// The encoder after some codes: its interval, and the bits written so far.
pub struct EncoderState {
    pub interval: Interval,
    pub bits: Seq<bool>,
}

/// The decoder after some codes: its interval, its reading window, the
/// position in the buffer of the bit after the window, and the codes found.
pub struct DecoderState {
    pub interval: Interval,
    pub window: nat,
    pub pos: nat,
    pub out: Seq<u32>,
}

impl ArithmeticEncoder {
    /// The codes that count at step `k`: the last `frequency_memory` of the
    /// first `k` codes.
    pub open spec fn recent(&self, codes: Seq<u32>, k: nat) -> Seq<u32> {
        let start = if k > self.frequency_memory { k - self.frequency_memory } else { 0 };
        codes.subrange(start, k as int)
    }

    /// The frequency of code `c` at step `k`.
    pub open spec fn frequency(&self, codes: Seq<u32>, k: nat, c: u32) -> nat {
        self.frequency_padding as nat + occurrences(self.recent(codes, k), c)
    }

    /// The sum of the frequencies at step `k` of the codes below `c`.
    pub open spec fn cumulative(&self, codes: Seq<u32>, k: nat, c: nat) -> nat
        decreases c,
    {
        if c == 0 {
            0
        } else {
            self.cumulative(codes, k, (c - 1) as nat) + self.frequency(codes, k, (c - 1) as u32)
        }
    }

    /// The step whose frequencies the table in use at step `k` was built from:
    /// the last multiple of `recalculation_frequency` up to `k`.
    pub open spec fn table_step(&self, k: nat) -> nat {
        if self.recalculation_frequency == 0 {
            k
        } else {
            (k - k % (self.recalculation_frequency as nat)) as nat
        }
    }

    /// The lower cumulative bound of code `c` in the table in use at step `k`.
    pub open spec fn bound(&self, codes: Seq<u32>, k: nat, c: nat) -> nat {
        self.cumulative(codes, self.table_step(k), c)
    }

    /// The encoder after the first `k` of `codes`, or nothing where the interval
    /// could not be split for one of them.
    pub open spec fn encoded(&self, base: u32, codes: Seq<u32>, k: nat) -> Option<EncoderState>
        decreases k,
    {
        if k == 0 {
            Some(
                EncoderState {
                    interval: Interval { bottom: 0, top: FULL as nat },
                    bits: Seq::empty(),
                },
            )
        } else {
            match self.encoded(base, codes, (k - 1) as nat) {
                None => None,
                Some(prev) => {
                    let at = (k - 1) as nat;
                    let c = codes[k - 1] as nat;
                    match narrow(
                        prev.interval,
                        self.bound(codes, at, c),
                        self.bound(codes, at, c + 1),
                        self.bound(codes, at, base as nat),
                    ) {
                        None => None,
                        Some(iv) => Some(
                            EncoderState {
                                interval: settled(iv),
                                bits: prev.bits + shared_bits(iv),
                            },
                        ),
                    }
                },
            }
        }
    }

    /// The packed form of `codes` after the bytes `front`: the bits of the
    /// encoder, then a single one bit, padded with zero bits to a whole byte.
    pub open spec fn pack_spec(&self, front: Seq<u8>, codes: Seq<u32>, base: u32) -> Option<
        Seq<u8>,
    > {
        match self.encoded(base, codes, codes.len()) {
            None => None,
            Some(end) => Some(packed(front, end.bits.push(true))),
        }
    }

    /// The code that the window `v` falls to, searched from `c` upwards: the
    /// first code whose upper bound in the interval reaches `v`, or the last code.
    pub open spec fn locate(
        &self,
        codes: Seq<u32>,
        k: nat,
        base: nat,
        bottom: nat,
        step: nat,
        v: nat,
        c: nat,
    ) -> nat
        decreases base - c,
    {
        if c + 1 >= base || bottom + step * self.bound(codes, k, c + 1) >= v {
            c
        } else {
            self.locate(codes, k, base, bottom, step, v, c + 1)
        }
    }

    /// The decoder after `k` codes read from `data`, or nothing where the
    /// window fell below the interval or the interval could not be split.
    pub open spec fn decoded(&self, base: u32, data: Seq<u8>, k: nat) -> Option<DecoderState>
        decreases k,
    {
        if k == 0 {
            Some(
                DecoderState {
                    interval: Interval { bottom: 0, top: FULL as nat },
                    window: refill(0, data, 0, 64),
                    pos: 64,
                    out: Seq::empty(),
                },
            )
        } else {
            match self.decoded(base, data, (k - 1) as nat) {
                None => None,
                Some(prev) => {
                    let at = (k - 1) as nat;
                    let total = self.bound(prev.out, at, base as nat);
                    let iv = prev.interval;
                    if prev.window < iv.bottom || total == 0 || iv.top < iv.bottom {
                        None
                    } else {
                        let step = ((iv.top - iv.bottom) / (total as int)) as nat;
                        let c = self.locate(
                            prev.out,
                            at,
                            base as nat,
                            iv.bottom,
                            step,
                            prev.window,
                            0,
                        );
                        match narrow(
                            iv,
                            self.bound(prev.out, at, c),
                            self.bound(prev.out, at, c + 1),
                            total,
                        ) {
                            None => None,
                            Some(next) => {
                                let count = shared_bits(next).len();
                                Some(
                                    DecoderState {
                                        interval: settled(next),
                                        window: refill(prev.window, data, prev.pos, count),
                                        pos: prev.pos + count,
                                        out: prev.out.push(c as u32),
                                    },
                                )
                            },
                        }
                    }
                },
            }
        }
    }

    /// The `length` codes that `data` unpacks to.
    pub open spec fn unpack_spec(&self, data: Seq<u8>, base: u32, length: nat) -> Option<
        Seq<u32>,
    > {
        match self.decoded(base, data, length) {
            None => None,
            Some(end) => Some(end.out),
        }
    }

    /// The parameters of the stream format.
    pub open spec fn default_spec() -> ArithmeticEncoder {
        ArithmeticEncoder {
            frequency_memory: 10_000,
            frequency_padding: 50,
            recalculation_frequency: 50,
        }
    }

    /// The twelve bytes in which a stream carries the parameters.
    pub open spec fn config_bytes(&self) -> Seq<u8> {
        le_bytes(self.frequency_memory) + le_bytes(self.frequency_padding) + le_bytes(
            self.recalculation_frequency,
        )
    }

    /// The parameters that the first twelve bytes of `bytes` carry.
    pub open spec fn config_of(bytes: Seq<u8>) -> ArithmeticEncoder {
        ArithmeticEncoder {
            frequency_memory: le_value(bytes.subrange(0, 4)) as u32,
            frequency_padding: le_value(bytes.subrange(4, 8)) as u32,
            recalculation_frequency: le_value(bytes.subrange(8, 12)) as u32,
        }
    }

    /// The coder of the stream format.
    pub fn default_encoder() -> (enc: ArithmeticEncoder)
        ensures
            enc == Self::default_spec(),
    {
        ArithmeticEncoder {
            frequency_memory: 10_000,
            frequency_padding: 50,
            recalculation_frequency: 50,
        }
    }
}

/// The sum over the codes below `c` of how often each occurs in `s`.
pub open spec fn occurrences_below(s: Seq<u32>, c: nat) -> nat
    decreases c,
{
    if c == 0 {
        0
    } else {
        occurrences_below(s, (c - 1) as nat) + occurrences(s, (c - 1) as u32)
    }
}

proof fn lemma_occurrences_below_step(s: Seq<u32>, c: nat)
    requires
        s.len() > 0,
        c <= u32::MAX + 1,
    ensures
        occurrences_below(s, c) == occurrences_below(s.drop_last(), c) + if s.last() < c {
            1nat
        } else {
            0nat
        },
    decreases c,
{
    if c > 0 {
        lemma_occurrences_below_step(s, (c - 1) as nat);
    }
}

proof fn lemma_occurrences_below_bound(s: Seq<u32>, c: nat)
    requires
        c <= u32::MAX + 1,
    ensures
        occurrences_below(s, c) <= s.len(),
    decreases s.len(),
{
    if s.len() == 0 {
        lemma_occurrences_below_empty(s, c);
    } else {
        lemma_occurrences_below_step(s, c);
        lemma_occurrences_below_bound(s.drop_last(), c);
    }
}

proof fn lemma_occurrences_below_all(s: Seq<u32>, c: nat)
    requires
        c <= u32::MAX + 1,
        forall|i: int| 0 <= i < s.len() ==> s[i] < c,
    ensures
        occurrences_below(s, c) == s.len(),
    decreases s.len(),
{
    if s.len() == 0 {
        lemma_occurrences_below_empty(s, c);
    } else {
        lemma_occurrences_below_step(s, c);
        lemma_occurrences_below_all(s.drop_last(), c);
    }
}

proof fn lemma_occurrences_below_empty(s: Seq<u32>, c: nat)
    requires
        s.len() == 0,
    ensures
        occurrences_below(s, c) == 0,
    decreases c,
{
    if c > 0 {
        lemma_occurrences_below_empty(s, (c - 1) as nat);
    }
}

proof fn lemma_occurrences_bound(s: Seq<u32>, c: u32)
    ensures
        occurrences(s, c) <= s.len(),
    decreases s.len(),
{
    if s.len() > 0 {
        lemma_occurrences_bound(s.drop_last(), c);
    }
}

proof fn lemma_occurrences_first(s: Seq<u32>, c: u32)
    requires
        s.len() > 0,
    ensures
        occurrences(s, c) == occurrences(s.subrange(1, s.len() as int), c) + if s[0] == c {
            1nat
        } else {
            0nat
        },
    decreases s.len(),
{
    let rest = s.subrange(1, s.len() as int);
    if s.len() == 1 {
        assert(s.drop_last().len() == 0);
        assert(rest.len() == 0);
        assert(occurrences(s.drop_last(), c) == 0);
        assert(occurrences(rest, c) == 0);
        assert(s.last() == s[0]);
    } else {
        lemma_occurrences_first(s.drop_last(), c);
        assert(s.drop_last().subrange(1, s.len() - 1) =~= rest.drop_last());
        assert(rest.last() == s.last());
        assert(s.drop_last()[0] == s[0]);
    }
}

impl ArithmeticEncoder {
    /// The cumulative frequency is the padding of the codes below plus their
    /// occurrences among the recent codes.
    pub proof fn lemma_cumulative(&self, codes: Seq<u32>, k: nat, c: nat)
        requires
            c <= u32::MAX + 1,
        ensures
            self.cumulative(codes, k, c) == c * self.frequency_padding + occurrences_below(
                self.recent(codes, k),
                c,
            ),
            self.cumulative(codes, k, c) <= c * self.frequency_padding + self.recent(
                codes,
                k,
            ).len(),
        decreases c,
    {
        lemma_occurrences_below_bound(self.recent(codes, k), c);
        let p = self.frequency_padding as int;
        if c > 0 {
            self.lemma_cumulative(codes, k, (c - 1) as nat);
            let b = (c - 1) as nat;
            assert(b * p + p == c * p) by (nonlinear_arith)
                requires
                    b == c - 1,
            ;
        } else {
            assert(c * p == 0) by (nonlinear_arith)
                requires
                    c == 0,
            ;
        }
    }

    /// Cumulative frequencies fit in 64 bits.
    pub proof fn lemma_cumulative_fits(&self, codes: Seq<u32>, k: nat, c: nat)
        requires
            c <= u32::MAX,
            k <= codes.len(),
        ensures
            self.cumulative(codes, k, c) <= 0xffff_ffff_0000_0000,
    {
        self.lemma_cumulative(codes, k, c);
        let p = self.frequency_padding as nat;
        assert(c * p <= 0xffff_ffff * 0xffff_ffff) by (nonlinear_arith)
            requires
                c <= 0xffff_ffff,
                p <= 0xffff_ffff,
        ;
    }

    /// The total that the interval is divided by: the padding of all codes,
    /// and one for every code that counted when the table was built.
    pub proof fn lemma_total(&self, base: u32, codes: Seq<u32>, k: nat)
        requires
            k <= codes.len(),
            forall|i: int| 0 <= i < codes.len() ==> codes[i] < base,
        ensures
            self.bound(codes, k, base as nat) == base * self.frequency_padding + if self.table_step(
                k,
            ) < self.frequency_memory {
                self.table_step(k)
            } else {
                self.frequency_memory as nat
            },
    {
        let at = self.table_step(k);
        self.lemma_table_step(k);
        self.lemma_cumulative(codes, at, base as nat);
        lemma_occurrences_below_all(self.recent(codes, at), base as nat);
    }

    /// Cumulative frequencies do not fall as the code rises.
    pub proof fn lemma_cumulative_monotone(&self, codes: Seq<u32>, k: nat, c1: nat, c2: nat)
        requires
            c1 <= c2,
        ensures
            self.cumulative(codes, k, c1) <= self.cumulative(codes, k, c2),
        decreases c2,
    {
        if c1 < c2 {
            self.lemma_cumulative_monotone(codes, k, c1, (c2 - 1) as nat);
        }
    }

    /// The model at step `k` depends on the first `k` codes only.
    pub proof fn lemma_cumulative_prefix(
        &self,
        codes: Seq<u32>,
        longer: Seq<u32>,
        k: nat,
        c: nat,
    )
        requires
            k <= codes.len() <= longer.len(),
            longer.take(codes.len() as int) == codes,
        ensures
            self.recent(longer, k) == self.recent(codes, k),
            self.cumulative(longer, k, c) == self.cumulative(codes, k, c),
        decreases c,
    {
        assert(self.recent(longer, k) =~= self.recent(codes, k)) by {
            let a = self.recent(longer, k);
            let b = self.recent(codes, k);
            assert(a.len() == b.len());
            assert forall|i: int| 0 <= i < a.len() implies a[i] == b[i] by {
                let start = if k > self.frequency_memory {
                    k - self.frequency_memory
                } else {
                    0
                };
                assert(longer.take(codes.len() as int)[start + i] == longer[start + i]);
            }
        }
        if c > 0 {
            self.lemma_cumulative_prefix(codes, longer, k, (c - 1) as nat);
        }
    }

    /// How the step of the table in use moves from one step to the next.
    pub proof fn lemma_table_step(&self, k: nat)
        ensures
            self.table_step(k) <= k,
            self.recalculation_frequency > 0 ==> k - self.table_step(k)
                < self.recalculation_frequency,
            self.table_step(k + 1) == if self.recalculation_frequency == 0 || k + 1
                - self.table_step(k) >= self.recalculation_frequency {
                k + 1
            } else {
                self.table_step(k)
            },
    {
        if self.recalculation_frequency > 0 {
            let r = self.recalculation_frequency as int;
            let q = (k as int) / r;
            let m = (k as int) % r;
            lemma_fundamental_div_mod(k as int, r);
            if m + 1 < r {
                lemma_fundamental_div_mod_converse((k + 1) as int, r, q, m + 1);
            } else {
                assert((q + 1) * r == q * r + r) by (nonlinear_arith);
                assert(r * q == q * r) by (nonlinear_arith);
                lemma_fundamental_div_mod_converse((k + 1) as int, r, q + 1, 0);
            }
        }
    }
}

/// The frequency model as the coder keeps it: the counters, the recent codes,
/// the cumulative table in use, and how many codes that table has served.
struct FrequencyModel {
    freqs: Vec<u64>,
    queue: VecDeque<u32>,
    table: Vec<u64>,
    age: u32,
}

impl FrequencyModel {
    /// The counters and the recent codes are those of step `k` of `codes`.
    spec fn counts(&self, cfg: &ArithmeticEncoder, base: u32, codes: Seq<u32>, k: nat) -> bool {
        &&& k <= codes.len()
        &&& forall|i: int| 0 <= i < k ==> codes[i] < base
        &&& self.freqs@.len() == base
        &&& self.queue@ == cfg.recent(codes, k)
        &&& forall|c: int|
            0 <= c < base ==> #[trigger] self.freqs@[c] == cfg.frequency(codes, k, c as u32)
    }

    /// The model is the one of step `k` of `codes`, table included.
    spec fn wf(&self, cfg: &ArithmeticEncoder, base: u32, codes: Seq<u32>, k: nat) -> bool {
        &&& self.counts(cfg, base, codes, k)
        &&& self.table@.len() == base + 1
        &&& forall|c: int|
            0 <= c <= base ==> #[trigger] self.table@[c] == cfg.bound(codes, k, c as nat)
        &&& self.age == k - cfg.table_step(k)
    }

    /// Builds the cumulative table from the counters as they stand.
    fn rebuild(&mut self, cfg: &ArithmeticEncoder, base: u32, Ghost(codes): Ghost<Seq<u32>>, Ghost(k): Ghost<nat>)
        requires
            old(self).counts(cfg, base, codes, k),
        ensures
            final(self).counts(cfg, base, codes, k),
            final(self).freqs == old(self).freqs,
            final(self).queue == old(self).queue,
            final(self).age == old(self).age,
            final(self).table@.len() == base + 1,
            forall|c: int|
                0 <= c <= base ==> #[trigger] final(self).table@[c] == cfg.cumulative(
                    codes,
                    k,
                    c as nat,
                ),
    {
        let mut table: Vec<u64> = Vec::new();
        let mut total_so_far: u64 = 0;
        let mut c: usize = 0;
        while c < base as usize
            invariant
                self.counts(cfg, base, codes, k),
                self == old(self),
                c <= base,
                table@.len() == c,
                total_so_far == cfg.cumulative(codes, k, c as nat),
                forall|j: int|
                    0 <= j < c ==> #[trigger] table@[j] == cfg.cumulative(codes, k, j as nat),
            decreases base - c,
        {
            proof {
                cfg.lemma_cumulative_fits(codes, k, (c + 1) as nat);
                assert(self.freqs@[c as int] == cfg.frequency(codes, k, c as u32));
            }
            table.push(total_so_far);
            total_so_far = total_so_far + self.freqs[c];
            c = c + 1;
        }
        table.push(total_so_far);
        self.table = table;
    }

    /// The model before any code: every counter at the padding.
    fn start(cfg: &ArithmeticEncoder, base: u32, Ghost(codes): Ghost<Seq<u32>>) -> (m: FrequencyModel)
        ensures
            m.wf(cfg, base, codes, 0),
    {
        let mut freqs: Vec<u64> = Vec::new();
        let mut c: usize = 0;
        proof {
            assert(cfg.recent(codes, 0) =~= Seq::<u32>::empty());
        }
        while c < base as usize
            invariant
                c <= base,
                freqs@.len() == c,
                cfg.recent(codes, 0).len() == 0,
                forall|j: int|
                    0 <= j < c ==> #[trigger] freqs@[j] == cfg.frequency(codes, 0, j as u32),
            decreases base - c,
        {
            freqs.push(cfg.frequency_padding as u64);
            c = c + 1;
        }
        let mut m = FrequencyModel { freqs, queue: VecDeque::new(), table: Vec::new(), age: 0 };
        m.rebuild(cfg, base, Ghost(codes), Ghost(0));
        m
    }

    /// Counts `code` as the most recent code, forgets the code that falls
    /// out of memory, and rebuilds the table where the next step is due one.
    fn observe(
        &mut self,
        cfg: &ArithmeticEncoder,
        base: u32,
        code: u32,
        Ghost(codes): Ghost<Seq<u32>>,
        Ghost(k): Ghost<nat>,
    )
        requires
            old(self).wf(cfg, base, codes, k),
            k < codes.len(),
            codes[k as int] == code,
            code < base,
        ensures
            final(self).wf(cfg, base, codes, k + 1),
    {
        let ghost before = cfg.recent(codes, k);
        let ghost grown = before.push(code);
        let ghost after = cfg.recent(codes, k + 1);
        proof {
            assert(grown.drop_last() =~= before);
            lemma_occurrences_bound(before, code);
            assert(self.freqs@[code as int] == cfg.frequency(codes, k, code));
        }
        self.queue.push_back(code);
        let bumped: u64 = self.freqs[code as usize] + 1;
        self.freqs.set(code as usize, bumped);
        if self.queue.len() > cfg.frequency_memory as usize {
            let oldest: u32 = self.queue.pop_front().unwrap();
            proof {
                assert(oldest == grown[0]);
                assert(after =~= grown.subrange(1, grown.len() as int));
                lemma_occurrences_first(grown, oldest);
            }
            let lowered: u64 = self.freqs[oldest as usize] - 1;
            self.freqs.set(oldest as usize, lowered);
            proof {
                assert forall|c: int| 0 <= c < base implies #[trigger] self.freqs@[c]
                    == cfg.frequency(codes, k + 1, c as u32) by {
                    lemma_occurrences_first(grown, c as u32);
                }
            }
        } else {
            proof {
                assert(after =~= grown);
            }
        }
        proof {
            cfg.lemma_table_step(k);
        }
        if cfg.recalculation_frequency == 0 || self.age + 1 >= cfg.recalculation_frequency {
            self.rebuild(cfg, base, Ghost(codes), Ghost(k + 1));
            self.age = 0;
        } else {
            self.age = self.age + 1;
        }
    }
}

proof fn lemma_split(diff: nat, total: nat, lower: nat, upper: nat)
    requires
        total > 0,
        lower <= upper <= total,
    ensures
        (diff / total) * lower <= (diff / total) * upper <= diff,
{
    let step = diff / total;
    lemma_fundamental_div_mod(diff as int, total as int);
    assert(step * lower <= step * upper) by (nonlinear_arith)
        requires
            lower <= upper,
    ;
    assert(step * upper <= total * step) by (nonlinear_arith)
        requires
            upper <= total,
    ;
}

proof fn lemma_scaled_monotone(step: nat, a: nat, b: nat)
    requires
        a <= b,
    ensures
        step * a <= step * b,
{
    assert(step * a <= step * b) by (nonlinear_arith)
        requires
            a <= b,
    ;
}

/// A bound of the interval shifted left by one bit, its highest bit lost.
fn shift_left(x: u64) -> (r: u64)
    ensures
        r == shift_out(x as nat),
        r % 2 == 0,
        r <= FULL - 1,
{
    if x >= HALF {
        (x - HALF) * 2
    } else {
        x * 2
    }
}

/// The next bit of the buffer, or zero past its end.
fn take_bit(unpacker: &mut Unpacker, Ghost(pos): Ghost<nat>) -> (b: u64)
    requires
        old(unpacker).wf(),
        old(unpacker)@.pos == if pos < 8 * old(unpacker)@.data.len() {
            pos
        } else {
            8 * old(unpacker)@.data.len()
        },
    ensures
        final(unpacker).wf(),
        final(unpacker)@.data == old(unpacker)@.data,
        final(unpacker)@.pos == if pos + 1 < 8 * old(unpacker)@.data.len() {
            pos + 1
        } else {
            8 * old(unpacker)@.data.len()
        },
        b == stream_bit(old(unpacker)@.data, pos),
{
    let ghost data = unpacker@.data;
    proof {
        let one = window(data, pos as int, 1);
        assert(one.drop_first() =~= Seq::<bool>::empty());
        assert(bits_value(one.drop_first()) == 0);
        assert(one[0] == bit_at(data, pos as int));
    }
    match unpacker.pop(1) {
        Some(v) => {
            if v == 1 {
                1
            } else {
                0
            }
        },
        None => 0,
    }
}

impl ArithmeticEncoder {
    /// Once the encoder has failed it stays failed.
    pub proof fn lemma_encoded_fails(&self, base: u32, codes: Seq<u32>, j: nat, n: nat)
        requires
            j <= n,
            self.encoded(base, codes, j) is None,
        ensures
            self.encoded(base, codes, n) is None,
        decreases n,
    {
        if j < n {
            self.lemma_encoded_fails(base, codes, j, (n - 1) as nat);
        }
    }

    /// Once the decoder has failed it stays failed.
    pub proof fn lemma_decoded_fails(&self, base: u32, data: Seq<u8>, j: nat, n: nat)
        requires
            j <= n,
            self.decoded(base, data, j) is None,
        ensures
            self.decoded(base, data, n) is None,
        decreases n,
    {
        if j < n {
            self.lemma_decoded_fails(base, data, j, (n - 1) as nat);
        }
    }

    /// The search for a code ends at the first code whose upper bound reaches
    /// the window.
    pub proof fn lemma_locate(
        &self,
        codes: Seq<u32>,
        k: nat,
        base: nat,
        bottom: nat,
        step: nat,
        v: nat,
        c: nat,
        target: nat,
    )
        requires
            c <= target < base,
            forall|j: int|
                c <= j < target ==> bottom + step * #[trigger] self.bound(codes, k, (j + 1) as nat)
                    < v,
            target + 1 >= base || bottom + step * self.bound(codes, k, target + 1) >= v,
        ensures
            self.locate(codes, k, base, bottom, step, v, c) == target,
        decreases target - c,
    {
        if c < target {
            assert(bottom + step * self.bound(codes, k, (c + 1) as nat) < v);
            self.lemma_locate(codes, k, base, bottom, step, v, c + 1, target);
        }
    }

    /// Packs codes below `base` after the bytes of `front_matter`. Nothing is
    /// returned where the interval became too narrow to be split.
    pub fn pack_codes(&self, front_matter: Vec<u8>, codes: &[u32], base: u32) -> (out: Option<
        Vec<u8>,
    >)
        requires
            forall|i: int| 0 <= i < codes@.len() ==> codes@[i] < base,
        ensures
            match out {
                Some(bytes) => self.pack_spec(front_matter@, codes@, base) == Some(bytes@),
                None => self.pack_spec(front_matter@, codes@, base) is None,
            },
    {
        let ghost front = front_matter@;
        let ghost mut bits: Seq<bool> = Seq::empty();
        let mut out = Packer::from_vec(front_matter);
        let mut model = FrequencyModel::start(self, base, Ghost(codes@));
        let mut bottom: u64 = 0;
        let mut top: u64 = FULL;
        let mut i: usize = 0;
        while i < codes.len()
            invariant
                i <= codes@.len(),
                forall|j: int| 0 <= j < codes@.len() ==> codes@[j] < base,
                model.wf(self, base, codes@, i as nat),
                out.wf(),
                out@ == PackerView::start(front).push_bits(bits),
                bottom <= top,
                self.encoded(base, codes@, i as nat) == Some(
                    EncoderState {
                        interval: Interval { bottom: bottom as nat, top: top as nat },
                        bits,
                    },
                ),
            decreases codes@.len() - i,
        {
            let code: u32 = codes[i];
            let lower: u64 = model.table[code as usize];
            let upper: u64 = model.table[code as usize + 1];
            let total: u64 = model.table[base as usize];
            let diff: u64 = top - bottom;
            let ghost at = i as nat;
            let ghost before = Interval { bottom: bottom as nat, top: top as nat };
            proof {
                assert(model.table@[code as int] == self.bound(codes@, at, code as nat));
                assert(model.table@[code + 1] == self.bound(codes@, at, (code + 1) as nat));
                assert(model.table@[base as int] == self.bound(codes@, at, base as nat));
                self.lemma_cumulative_monotone(
                    codes@,
                    self.table_step(at),
                    (code + 1) as nat,
                    base as nat,
                );
            }
            if total == 0 || diff / total == 0 || lower >= upper {
                proof {
                    assert(narrow(before, lower as nat, upper as nat, total as nat) is None);
                    assert(self.encoded(base, codes@, (i + 1) as nat) is None);
                    self.lemma_encoded_fails(base, codes@, (i + 1) as nat, codes@.len());
                }
                return None;
            }
            let step: u64 = diff / total;
            proof {
                lemma_split(diff as nat, total as nat, lower as nat, upper as nat);
                lemma_scaled_monotone(1, (lower + 1) as nat, upper as nat);
                assert(step * lower < step * upper) by (nonlinear_arith)
                    requires
                        step >= 1,
                        lower < upper,
                ;
            }
            top = bottom + step * upper;
            bottom = bottom + step * lower;
            let ghost split = Interval { bottom: bottom as nat, top: top as nat };
            let ghost mut emitted: Seq<bool> = Seq::empty();
            proof {
                assert(narrow(before, lower as nat, upper as nat, total as nat) == Some(split));
                assert(bits + emitted =~= bits);
            }
            while (bottom >= HALF) == (top >= HALF)
                invariant
                    bottom < top,
                    out.wf(),
                    out@ == PackerView::start(front).push_bits(bits + emitted),
                    shared_bits(split) == emitted + shared_bits(
                        Interval { bottom: bottom as nat, top: top as nat },
                    ),
                    settled(split) == settled(Interval { bottom: bottom as nat, top: top as nat }),
                decreases FULL + 1 - (top - bottom),
            {
                let ghost now = Interval { bottom: bottom as nat, top: top as nat };
                let ghost b = bottom >= HALF;
                proof {
                    lemma_push_one(out@, if b { 1 } else { 0 });
                    lemma_push_bits_push(PackerView::start(front), bits + emitted, b);
                    assert((bits + emitted).push(b) =~= bits + emitted.push(b));
                }
                if bottom >= HALF {
                    out.push(1, 1);
                } else {
                    out.push(0, 1);
                }
                bottom = shift_left(bottom);
                top = shift_left(top);
                proof {
                    let next = Interval { bottom: bottom as nat, top: top as nat };
                    assert(shared_bits(now) == seq![b] + shared_bits(next));
                    assert(emitted + (seq![b] + shared_bits(next)) =~= emitted.push(b)
                        + shared_bits(next));
                    emitted = emitted.push(b);
                }
            }
            proof {
                let now = Interval { bottom: bottom as nat, top: top as nat };
                assert(shared_bits(now) =~= Seq::<bool>::empty());
                assert(emitted + shared_bits(now) =~= emitted);
                assert(settled(now) == now);
                bits = bits + emitted;
            }
            model.observe(self, base, code, Ghost(codes@), Ghost(at));
            i = i + 1;
        }
        proof {
            lemma_push_one(out@, 1);
            lemma_push_bits_push(PackerView::start(front), bits, true);
        }
        out.push(1, 1);
        Some(out.finish())
    }
}

impl FrequencyModel {
    /// A model that matches a history matches every history that extends it.
    proof fn lemma_extend(
        &self,
        cfg: &ArithmeticEncoder,
        base: u32,
        codes: Seq<u32>,
        longer: Seq<u32>,
        k: nat,
    )
        requires
            self.wf(cfg, base, codes, k),
            codes.len() <= longer.len(),
            longer.take(codes.len() as int) == codes,
        ensures
            self.wf(cfg, base, longer, k),
    {
        cfg.lemma_cumulative_prefix(codes, longer, k, 0);
        cfg.lemma_table_step(k);
        assert forall|i: int| 0 <= i < k implies longer[i] < base by {
            assert(longer.take(codes.len() as int)[i] == longer[i]);
        }
        assert forall|c: int| 0 <= c <= base implies #[trigger] self.table@[c] == cfg.bound(
            longer,
            k,
            c as nat,
        ) by {
            cfg.lemma_cumulative_prefix(codes, longer, cfg.table_step(k), c as nat);
        }
    }
}

/// Shifts the bits that the bounds share out of the bounds and of the window,
/// and fills the window from the buffer.
fn settle_window(
    bottom: u64,
    top: u64,
    unpacked: u64,
    unpacker: &mut Unpacker,
    Ghost(pos): Ghost<nat>,
) -> (r: (u64, u64, u64))
    requires
        bottom < top,
        old(unpacker).wf(),
        old(unpacker)@.pos == if pos < 8 * old(unpacker)@.data.len() {
            pos
        } else {
            8 * old(unpacker)@.data.len()
        },
    ensures
        final(unpacker).wf(),
        final(unpacker)@.data == old(unpacker)@.data,
        ({
            let split = Interval { bottom: bottom as nat, top: top as nat };
            let count = shared_bits(split).len();
            &&& settled(split) == Interval { bottom: r.0 as nat, top: r.1 as nat }
            &&& r.0 < r.1
            &&& r.2 == refill(unpacked as nat, old(unpacker)@.data, pos, count)
            &&& final(unpacker)@.pos == if pos + count < 8 * old(unpacker)@.data.len() {
                pos + count
            } else {
                8 * old(unpacker)@.data.len()
            }
        }),
{
    let ghost data = unpacker@.data;
    let ghost split = Interval { bottom: bottom as nat, top: top as nat };
    let ghost mut count: nat = 0;
    let mut bottom = bottom;
    let mut top = top;
    let mut window = unpacked;
    while (bottom >= HALF) == (top >= HALF)
        invariant
            bottom < top,
            unpacker.wf(),
            unpacker@.data == data,
            unpacker@.pos == if pos + count < 8 * data.len() {
                pos + count
            } else {
                8 * data.len()
            },
            window == refill(unpacked as nat, data, pos, count),
            shared_bits(split).len() == count + shared_bits(
                Interval { bottom: bottom as nat, top: top as nat },
            ).len(),
            settled(split) == settled(Interval { bottom: bottom as nat, top: top as nat }),
        decreases FULL + 1 - (top - bottom),
    {
        let ghost now = Interval { bottom: bottom as nat, top: top as nat };
        bottom = shift_left(bottom);
        top = shift_left(top);
        let bit: u64 = take_bit(unpacker, Ghost(pos + count));
        window = shift_left(window) + bit;
        proof {
            let next = Interval { bottom: bottom as nat, top: top as nat };
            assert(shared_bits(now) == seq![now.bottom >= HALF] + shared_bits(next));
            count = count + 1;
        }
    }
    proof {
        let now = Interval { bottom: bottom as nat, top: top as nat };
        assert(shared_bits(now) =~= Seq::<bool>::empty());
        assert(settled(now) == now);
    }
    (bottom, top, window)
}

impl ArithmeticEncoder {
    /// Finds the code that the window falls to.
    fn locate_code(
        &self,
        model: &FrequencyModel,
        base: u32,
        bottom: u64,
        top: u64,
        unpacked: u64,
        Ghost(seen): Ghost<Seq<u32>>,
        Ghost(at): Ghost<nat>,
    ) -> (code: u32)
        requires
            model.wf(self, base, seen, at),
            bottom <= top,
            self.bound(seen, at, base as nat) > 0,
        ensures
            code < base,
            code == self.locate(
                seen,
                at,
                base as nat,
                bottom as nat,
                ((top - bottom) / (self.bound(seen, at, base as nat) as int)) as nat,
                unpacked as nat,
                0,
            ),
            bottom + ((top - bottom) / (self.bound(seen, at, base as nat) as int)) * self.bound(
                seen,
                at,
                (code + 1) as nat,
            ) <= top,
    {
        let total: u64 = model.table[base as usize];
        let diff: u64 = top - bottom;
        proof {
            assert(model.table@[base as int] == self.bound(seen, at, base as nat));
        }
        let step: u64 = diff / total;
        proof {
            assert forall|c: int| 0 <= c <= base implies bottom + step * #[trigger] self.bound(
                seen,
                at,
                c as nat,
            ) <= top by {
                self.lemma_cumulative_monotone(seen, self.table_step(at), c as nat, base as nat);
                lemma_split(
                    diff as nat,
                    total as nat,
                    self.bound(seen, at, c as nat),
                    total as nat,
                );
                lemma_scaled_monotone(step as nat, self.bound(seen, at, c as nat), total as nat);
            }
        }
        let mut lo: u32 = 0;
        let mut hi: u32 = base - 1;
        while lo < hi
            invariant
                lo <= hi < base,
                model.wf(self, base, seen, at),
                forall|c: int|
                    0 <= c <= base ==> bottom + step * #[trigger] self.bound(seen, at, c as nat)
                        <= top,
                forall|j: int|
                    0 <= j < lo ==> bottom + step * #[trigger] self.bound(seen, at, (j + 1) as nat)
                        < unpacked,
                hi + 1 >= base || bottom + step * self.bound(seen, at, (hi + 1) as nat)
                    >= unpacked,
            decreases hi - lo,
        {
            let mid: u32 = lo + (hi - lo) / 2;
            let edge: u64 = model.table[mid as usize + 1];
            proof {
                assert(model.table@[mid + 1] == self.bound(seen, at, (mid + 1) as nat));
                assert(bottom + step * self.bound(seen, at, (mid + 1) as nat) <= top);
            }
            if bottom + step * edge >= unpacked {
                hi = mid;
            } else {
                proof {
                    assert forall|j: int| 0 <= j < mid + 1 implies bottom + step
                        * #[trigger] self.bound(seen, at, (j + 1) as nat) < unpacked by {
                        self.lemma_cumulative_monotone(
                            seen,
                            self.table_step(at),
                            (j + 1) as nat,
                            (mid + 1) as nat,
                        );
                        lemma_scaled_monotone(
                            step as nat,
                            self.bound(seen, at, (j + 1) as nat),
                            self.bound(seen, at, (mid + 1) as nat),
                        );
                    }
                }
                lo = mid + 1;
            }
        }
        proof {
            self.lemma_locate(
                seen,
                at,
                base as nat,
                bottom as nat,
                step as nat,
                unpacked as nat,
                0,
                lo as nat,
            );
            assert(bottom + step * self.bound(seen, at, (lo + 1) as nat) <= top);
        }
        lo
    }

    /// Unpacks `length` codes below `base` from `ciphertext`. Nothing is
    /// returned where the bits cannot have come from the packer: where the
    /// window fell below the interval, or the interval became too narrow to
    /// be split.
    pub fn unpack_codes(&self, ciphertext: &[u8], base: u32, length: usize) -> (out: Option<
        Vec<u32>,
    >)
        ensures
            match out {
                Some(codes) => {
                    &&& self.unpack_spec(ciphertext@, base, length as nat) == Some(codes@)
                    &&& codes@.len() == length
                    &&& forall|i: int| 0 <= i < codes@.len() ==> codes@[i] < base
                },
                None => self.unpack_spec(ciphertext@, base, length as nat) is None,
            },
    {
        let ghost data = ciphertext@;
        let ghost mut pos: nat = 0;
        let mut unpacker = Unpacker::from_vec(ciphertext);
        let mut out: Vec<u32> = Vec::new();
        let mut bottom: u64 = 0;
        let mut top: u64 = FULL;
        let mut unpacked: u64 = 0;
        let mut filled: u8 = 0;
        while filled < 64
            invariant
                filled <= 64,
                pos == filled,
                unpacker.wf(),
                unpacker@.data == data,
                unpacker@.pos == if pos < 8 * data.len() {
                    pos
                } else {
                    8 * data.len()
                },
                unpacked == refill(0, data, 0, filled as nat),
            decreases 64 - filled,
        {
            let bit: u64 = take_bit(&mut unpacker, Ghost(pos));
            unpacked = shift_left(unpacked) + bit;
            filled = filled + 1;
            proof {
                pos = pos + 1;
            }
        }
        let mut model = FrequencyModel::start(self, base, Ghost(out@));
        let mut k: usize = 0;
        while k < length
            invariant
                k <= length,
                data == ciphertext@,
                out@.len() == k,
                model.wf(self, base, out@, k as nat),
                unpacker.wf(),
                unpacker@.data == data,
                unpacker@.pos == if pos < 8 * data.len() {
                    pos
                } else {
                    8 * data.len()
                },
                bottom <= top,
                self.decoded(base, data, k as nat) == Some(
                    DecoderState {
                        interval: Interval { bottom: bottom as nat, top: top as nat },
                        window: unpacked as nat,
                        pos,
                        out: out@,
                    },
                ),
            decreases length - k,
        {
            let ghost at = k as nat;
            let ghost seen = out@;
            let ghost before = Interval { bottom: bottom as nat, top: top as nat };
            let total: u64 = model.table[base as usize];
            let diff: u64 = top - bottom;
            proof {
                assert(model.table@[base as int] == self.bound(seen, at, base as nat));
            }
            if unpacked < bottom || total == 0 || diff / total == 0 {
                proof {
                    assert(self.decoded(base, data, (k + 1) as nat) is None);
                    self.lemma_decoded_fails(base, data, (k + 1) as nat, length as nat);
                }
                return None;
            }
            let step: u64 = diff / total;
            let code: u32 = self.locate_code(
                &model,
                base,
                bottom,
                top,
                unpacked,
                Ghost(seen),
                Ghost(at),
            );
            let lower: u64 = model.table[code as usize];
            let upper: u64 = model.table[code as usize + 1];
            proof {
                assert(model.table@[code as int] == self.bound(seen, at, code as nat));
                assert(model.table@[code + 1] == self.bound(seen, at, (code + 1) as nat));
            }
            if lower >= upper {
                proof {
                    assert(narrow(before, lower as nat, upper as nat, total as nat) is None);
                    assert(self.decoded(base, data, (k + 1) as nat) is None);
                    self.lemma_decoded_fails(base, data, (k + 1) as nat, length as nat);
                }
                return None;
            }
            proof {
                assert(step * lower < step * upper) by (nonlinear_arith)
                    requires
                        step >= 1,
                        lower < upper,
                ;
            }
            let split_top: u64 = bottom + step * upper;
            let split_bottom: u64 = bottom + step * lower;
            proof {
                let split = Interval { bottom: split_bottom as nat, top: split_top as nat };
                assert(narrow(before, lower as nat, upper as nat, total as nat) == Some(split));
            }
            let settled_to = settle_window(
                split_bottom,
                split_top,
                unpacked,
                &mut unpacker,
                Ghost(pos),
            );
            bottom = settled_to.0;
            top = settled_to.1;
            unpacked = settled_to.2;
            out.push(code);
            proof {
                let split = Interval { bottom: split_bottom as nat, top: split_top as nat };
                pos = pos + shared_bits(split).len();
                assert(out@ == seen.push(code));
                assert(out@.take(seen.len() as int) =~= seen);
                model.lemma_extend(self, base, seen, out@, at);
            }
            model.observe(self, base, code, Ghost(out@), Ghost(at));
            k = k + 1;
        }
        Some(out)
    }
}

/// `codes` are what `encode` gives for the items, one for one.
pub open spec fn encodes_to<T, F: Fn(&T) -> u32>(encode: F, items: Seq<T>, codes: Seq<u32>) -> bool {
    &&& codes.len() == items.len()
    &&& forall|i: int|
        0 <= i < items.len() ==> call_ensures(encode, (&items[i],), #[trigger] codes[i])
}

/// `items` are what `decode` gives for the codes, one for one.
pub open spec fn decodes_to<T, F: Fn(u32) -> T>(decode: F, codes: Seq<u32>, items: Seq<T>) -> bool {
    &&& items.len() == codes.len()
    &&& forall|i: int|
        0 <= i < codes.len() ==> call_ensures(decode, (codes[i],), #[trigger] items[i])
}

impl ArithmeticEncoder {
    /// Reads the parameters from the first twelve bytes of `bytes`, if there
    /// are that many.
    pub fn read_config(bytes: &[u8]) -> (out: Option<ArithmeticEncoder>)
        ensures
            out is Some <==> bytes@.len() >= 12,
            out matches Some(enc) ==> enc.config_bytes() == bytes@.take(12),
            out matches Some(enc) ==> enc == Self::config_of(bytes@),
    {
        if bytes.len() < 12 {
            return None;
        }
        let frequency_memory: u32 = read_u32(bytes, 0);
        let frequency_padding: u32 = read_u32(bytes, 4);
        let recalculation_frequency: u32 = read_u32(bytes, 8);
        let enc = ArithmeticEncoder {
            frequency_memory,
            frequency_padding,
            recalculation_frequency,
        };
        proof {
            crate::endian::lemma_le_bytes_of_value(bytes@.subrange(0, 4));
            crate::endian::lemma_le_bytes_of_value(bytes@.subrange(4, 8));
            crate::endian::lemma_le_bytes_of_value(bytes@.subrange(8, 12));
            assert(enc.config_bytes() =~= bytes@.take(12));
        }
        Some(enc)
    }

    /// The parameters as the twelve bytes that a stream carries.
    pub fn write_config(&self) -> (out: Vec<u8>)
        ensures
            out@ == self.config_bytes(),
            out@.len() == 12,
    {
        let mut out: Vec<u8> = Vec::new();
        push_u32(&mut out, self.frequency_memory);
        push_u32(&mut out, self.frequency_padding);
        push_u32(&mut out, self.recalculation_frequency);
        assert(out@ =~= self.config_bytes());
        out
    }

    /// Packs the codes that `encode` gives for the items of `plaintext`, after
    /// the bytes of `front_matter`. Nothing is returned where the interval
    /// became too narrow to be split.
    pub fn pack<T, F: Fn(&T) -> u32>(
        &self,
        front_matter: Vec<u8>,
        plaintext: &[T],
        encode: F,
        base: u32,
    ) -> (out: Option<Vec<u8>>)
        requires
            forall|i: int| 0 <= i < plaintext@.len() ==> call_requires(encode, (&plaintext@[i],)),
            forall|i: int, c: u32|
                0 <= i < plaintext@.len() && call_ensures(encode, (&plaintext@[i],), c) ==> c
                    < base,
        ensures
            exists|codes: Seq<u32>|
                {
                    &&& #[trigger] encodes_to(encode, plaintext@, codes)
                    &&& match out {
                        Some(bytes) => self.pack_spec(front_matter@, codes, base) == Some(bytes@),
                        None => self.pack_spec(front_matter@, codes, base) is None,
                    }
                },
    {
        let mut codes: Vec<u32> = Vec::new();
        let mut i: usize = 0;
        while i < plaintext.len()
            invariant
                i <= plaintext@.len(),
                codes@.len() == i,
                forall|j: int|
                    0 <= j < plaintext@.len() ==> call_requires(encode, (&plaintext@[j],)),
                forall|j: int, c: u32|
                    0 <= j < plaintext@.len() && call_ensures(encode, (&plaintext@[j],), c) ==> c
                        < base,
                forall|j: int|
                    0 <= j < i ==> call_ensures(encode, (&plaintext@[j],), #[trigger] codes@[j]),
            decreases plaintext@.len() - i,
        {
            let code: u32 = encode(&plaintext[i]);
            codes.push(code);
            i = i + 1;
        }
        let out = self.pack_codes(front_matter, codes.as_slice(), base);
        assert(encodes_to(encode, plaintext@, codes@));
        out
    }

    /// Unpacks `length` codes below `base` from `ciphertext` and hands back
    /// what `decode` makes of each. Nothing is returned where the bits cannot
    /// have come from the packer.
    pub fn unpack<T, F: Fn(u32) -> T>(
        &self,
        ciphertext: &[u8],
        decode: F,
        base: u32,
        length: usize,
    ) -> (out: Option<Vec<T>>)
        requires
            forall|c: u32| c < base ==> call_requires(decode, (c,)),
        ensures
            match out {
                Some(items) => self.unpack_spec(ciphertext@, base, length as nat) matches Some(
                    codes,
                ) && decodes_to(decode, codes, items@),
                None => self.unpack_spec(ciphertext@, base, length as nat) is None,
            },
    {
        match self.unpack_codes(ciphertext, base, length) {
            None => None,
            Some(codes) => {
                let mut items: Vec<T> = Vec::new();
                let mut i: usize = 0;
                while i < codes.len()
                    invariant
                        i <= codes@.len(),
                        items@.len() == i,
                        forall|c: u32| c < base ==> call_requires(decode, (c,)),
                        forall|j: int| 0 <= j < codes@.len() ==> codes@[j] < base,
                        forall|j: int|
                            0 <= j < i ==> call_ensures(decode, (codes@[j],), #[trigger] items@[j]),
                    decreases codes@.len() - i,
                {
                    let item: T = decode(codes[i]);
                    items.push(item);
                    i = i + 1;
                }
                Some(items)
            },
        }
    }
}

/// Packs with the parameters of the stream format; see [`ArithmeticEncoder::pack`].
pub fn pack_arithmetic<T, F: Fn(&T) -> u32>(
    front_matter: Vec<u8>,
    plaintext: &[T],
    encode: F,
    base: u32,
) -> (out: Option<Vec<u8>>)
    requires
        forall|i: int| 0 <= i < plaintext@.len() ==> call_requires(encode, (&plaintext@[i],)),
        forall|i: int, c: u32|
            0 <= i < plaintext@.len() && call_ensures(encode, (&plaintext@[i],), c) ==> c < base,
    ensures
        exists|codes: Seq<u32>|
            {
                &&& #[trigger] encodes_to(encode, plaintext@, codes)
                &&& match out {
                    Some(bytes) => ArithmeticEncoder::default_spec().pack_spec(
                        front_matter@,
                        codes,
                        base,
                    ) == Some(bytes@),
                    None => ArithmeticEncoder::default_spec().pack_spec(
                        front_matter@,
                        codes,
                        base,
                    ) is None,
                }
            },
{
    ArithmeticEncoder::default_encoder().pack(front_matter, plaintext, encode, base)
}

/// Unpacks with the parameters of the stream format; see
/// [`ArithmeticEncoder::unpack`].
pub fn unpack_arithmetic<T, F: Fn(u32) -> T>(
    ciphertext: &[u8],
    decode: F,
    base: u32,
    length: usize,
) -> (out: Option<Vec<T>>)
    requires
        forall|c: u32| c < base ==> call_requires(decode, (c,)),
    ensures
        match out {
            Some(items) => ArithmeticEncoder::default_spec().unpack_spec(
                ciphertext@,
                base,
                length as nat,
            ) matches Some(codes) && decodes_to(decode, codes, items@),
            None => ArithmeticEncoder::default_spec().unpack_spec(
                ciphertext@,
                base,
                length as nat,
            ) is None,
        },
{
    ArithmeticEncoder::default_encoder().unpack(ciphertext, decode, base, length)
}

} // verus!
