//! Bit-level packing: variable-width fields written to and read from a byte
//! buffer, least significant bit first within each byte.

use vstd::prelude::*;
use vstd::arithmetic::power2::{pow2, lemma_pow2_unfold, lemma2_to64, lemma_pow2_pos, lemma_pow2_strictly_increases};
use vstd::arithmetic::div_mod::{lemma_div_denominator, lemma_fundamental_div_mod, lemma_fundamental_div_mod_converse};

verus! {

/// The number whose binary digits are `bits`, least significant first.
pub open spec fn bits_value(bits: Seq<bool>) -> nat
    decreases bits.len(),
{
    if bits.len() == 0 {
        0
    } else {
        (if bits[0] { 1nat } else { 0nat }) + 2 * bits_value(bits.drop_first())
    }
}

/// Bit `i` of `x`, bit 0 being the least significant.
pub open spec fn bit_of(x: nat, i: nat) -> bool
    decreases i,
{
    if i == 0 {
        x % 2 == 1
    } else {
        bit_of(x / 2, (i - 1) as nat)
    }
}

/// The `width` low bits of `x`, least significant first.
pub open spec fn low_bits(x: nat, width: nat) -> Seq<bool> {
    Seq::new(width, |i: int| bit_of(x, i as nat))
}

/// Bit `p` of a byte buffer read as one long bit string.
pub open spec fn bit_at(data: Seq<u8>, p: int) -> bool {
    bit_of(data[p / 8] as nat, (p % 8) as nat)
}

/// The `width` bits of a buffer that start at bit `pos`.
pub open spec fn window(data: Seq<u8>, pos: int, width: int) -> Seq<bool> {
    Seq::new(width as nat, |i: int| bit_at(data, pos + i))
}

/// What a packer holds: the bytes already complete, and the bits of the byte
/// under construction (at most seven).
pub struct PackerView {
    pub bytes: Seq<u8>,
    pub pending: Seq<bool>,
}

impl PackerView {
    pub open spec fn start(bytes: Seq<u8>) -> PackerView {
        PackerView { bytes, pending: Seq::empty() }
    }

    /// Appends one bit; the eighth bit of a byte completes it.
    pub open spec fn push_bit(self, b: bool) -> PackerView {
        if self.pending.len() == 7 {
            PackerView {
                bytes: self.bytes.push(bits_value(self.pending.push(b)) as u8),
                pending: Seq::empty(),
            }
        } else {
            PackerView { bytes: self.bytes, pending: self.pending.push(b) }
        }
    }

    /// Appends the bits in order.
    pub open spec fn push_bits(self, bits: Seq<bool>) -> PackerView
        decreases bits.len(),
    {
        if bits.len() == 0 {
            self
        } else {
            self.push_bits(bits.drop_last()).push_bit(bits.last())
        }
    }

    /// The buffer once the byte under construction, if any, is padded with
    /// zero bits and written out.
    pub open spec fn finish(self) -> Seq<u8> {
        if self.pending.len() == 0 {
            self.bytes
        } else {
            self.bytes.push(bits_value(self.pending) as u8)
        }
    }
}

/// The bytes that result from packing `bits` after the bytes `front`.
pub open spec fn packed(front: Seq<u8>, bits: Seq<bool>) -> Seq<u8> {
    PackerView::start(front).push_bits(bits).finish()
}

pub proof fn lemma_bits_value_push(bits: Seq<bool>, b: bool)
    ensures
        bits_value(bits.push(b)) == bits_value(bits) + (if b { pow2(bits.len()) } else { 0 }),
    decreases bits.len(),
{
    lemma2_to64();
    let t = bits.push(b);
    if bits.len() == 0 {
        assert(t.drop_first() =~= Seq::<bool>::empty());
        assert(bits_value(t.drop_first()) == 0);
    } else {
        assert(t.drop_first() =~= bits.drop_first().push(b));
        lemma_bits_value_push(bits.drop_first(), b);
        lemma_pow2_unfold(bits.len());
    }
}

pub proof fn lemma_bits_value_bound(bits: Seq<bool>)
    ensures
        bits_value(bits) < pow2(bits.len()),
    decreases bits.len(),
{
    lemma2_to64();
    if bits.len() > 0 {
        lemma_bits_value_bound(bits.drop_first());
        lemma_pow2_unfold(bits.len());
    }
}

/// The bits of the value of a bit string are that string, followed by zeros.
pub proof fn lemma_bit_of_value(bits: Seq<bool>, i: nat)
    ensures
        bit_of(bits_value(bits), i) == (i < bits.len() && bits[i as int]),
    decreases i,
{
    if bits.len() == 0 {
        lemma_bit_of_zero(i);
    } else if i > 0 {
        lemma_bit_of_value(bits.drop_first(), (i - 1) as nat);
    }
}

pub proof fn lemma_bit_of_zero(i: nat)
    ensures
        !bit_of(0, i),
    decreases i,
{
    if i > 0 {
        lemma_bit_of_zero((i - 1) as nat);
    }
}

pub proof fn lemma_bit_of_div(x: nat, k: nat)
    ensures
        bit_of(x, k) == ((x / pow2(k)) % 2 == 1),
    decreases k,
{
    lemma2_to64();
    if k > 0 {
        lemma_bit_of_div(x / 2, (k - 1) as nat);
        lemma_pow2_unfold(k);
        lemma_pow2_pos((k - 1) as nat);
        let p = pow2((k - 1) as nat);
        lemma_div_denominator(x as int, 2, p as int);
        assert((x as int / 2) / (p as int) == x as int / (2 * (p as int)));
        assert(pow2(k) == 2 * p);
        assert(x / pow2(k) == (x / 2) / p);
        assert(bit_of(x, k) == bit_of(x / 2, (k - 1) as nat));
    } else {
        assert(pow2(0) == 1);
        assert(x / 1 == x);
    }
}

/// The value of the `width` low bits of `x` is `x` modulo `2^width`.
pub proof fn lemma_low_bits_value(x: nat, width: nat)
    ensures
        bits_value(low_bits(x, width)) == x % pow2(width),
    decreases width,
{
    lemma2_to64();
    if width > 0 {
        let m = pow2((width - 1) as nat);
        lemma_pow2_pos((width - 1) as nat);
        lemma_pow2_unfold(width);
        assert(low_bits(x, width).drop_first() =~= low_bits(x / 2, (width - 1) as nat));
        lemma_low_bits_value(x / 2, (width - 1) as nat);
        let h = x / 2;
        let q = h / m;
        let r = h % m;
        lemma_fundamental_div_mod(h as int, m as int);
        assert(x == q * (2 * m) + (2 * r + x % 2)) by (nonlinear_arith)
            requires
                h == m * q + r,
                x == 2 * h + x % 2,
        ;
        lemma_fundamental_div_mod_converse(
            x as int,
            (2 * m) as int,
            q as int,
            (2 * r + x % 2) as int,
        );
    }
}

/// Where the packed bits lie: the packed buffer begins with `front`, holds the
/// bits in order from there, and ends with zero bits up to the next byte
/// boundary.
pub proof fn lemma_packed(front: Seq<u8>, bits: Seq<bool>)
    ensures
        packed(front, bits).len() == front.len() + (bits.len() + 7) / 8,
        packed(front, bits).take(front.len() as int) == front,
        forall|i: int|
            0 <= i < bits.len() ==> #[trigger] bit_at(packed(front, bits), 8 * front.len() + i)
                == bits[i],
        forall|i: int|
            bits.len() <= i < 8 * ((bits.len() + 7) / 8) ==> !#[trigger] bit_at(
                packed(front, bits),
                8 * front.len() + i,
            ),
{
    lemma_layout(front, bits);
    let v = PackerView::start(front).push_bits(bits);
    let out = packed(front, bits);
    let full = 8 * (bits.len() / 8);
    lemma_bits_value_bound(v.pending);
    lemma2_to64();
    if v.pending.len() < 8 {
        lemma_pow2_strictly_increases(v.pending.len(), 8);
    }
    assert(out.take(front.len() as int) =~= front);
    assert forall|i: int| 0 <= i < bits.len() implies #[trigger] bit_at(out, 8 * front.len() + i)
        == bits[i] by {
        let p = 8 * front.len() + i;
        if i >= full {
            lemma_bit_of_value(v.pending, (i - full) as nat);
            assert(p / 8 == v.bytes.len() && p % 8 == i - full);
            assert(v.pending[i - full] == bits[i]);
        } else {
            assert(p / 8 < v.bytes.len());
            assert(out[p / 8] == v.bytes[p / 8]);
            assert(bit_at(v.bytes, 8 * front.len() + i) == bits[i]);
        }
    }
    assert forall|i: int| bits.len() <= i < 8 * ((bits.len() + 7) / 8) implies !#[trigger] bit_at(
        out,
        8 * front.len() + i,
    ) by {
        let p = 8 * front.len() + i;
        lemma_bit_of_value(v.pending, (i - full) as nat);
        assert(p / 8 == v.bytes.len() && p % 8 == i - full);
    }
}

proof fn lemma_layout(front: Seq<u8>, bits: Seq<bool>)
    ensures
        ({
            let v = PackerView::start(front).push_bits(bits);
            &&& v.bytes.len() == front.len() + bits.len() / 8
            &&& v.pending == bits.skip(8 * (bits.len() / 8) as int)
            &&& v.bytes.take(front.len() as int) == front
            &&& forall|i: int|
                0 <= i < 8 * (bits.len() / 8) ==> #[trigger] bit_at(v.bytes, 8 * front.len() + i)
                    == bits[i]
        }),
    decreases bits.len(),
{
    let v = PackerView::start(front).push_bits(bits);
    if bits.len() == 0 {
        assert(v.pending =~= bits.skip(0));
        assert(v.bytes.take(front.len() as int) =~= front);
    } else {
        let prev = bits.drop_last();
        let u = PackerView::start(front).push_bits(prev);
        lemma_layout(front, prev);
        let b = bits.last();
        assert(v == u.push_bit(b));
        if u.pending.len() == 7 {
            let byte = u.pending.push(b);
            assert(byte =~= bits.skip(8 * (prev.len() / 8) as int));
            lemma_bits_value_bound(byte);
            lemma2_to64();
            assert(v.pending =~= bits.skip(8 * (bits.len() / 8) as int));
            assert(v.bytes.take(front.len() as int) =~= front);
            assert forall|i: int| 0 <= i < 8 * (bits.len() / 8) implies #[trigger] bit_at(
                v.bytes,
                8 * front.len() + i,
            ) == bits[i] by {
                if i < 8 * (prev.len() / 8) {
                    assert(bit_at(u.bytes, 8 * front.len() + i) == prev[i]);
                } else {
                    let j = i - 8 * (prev.len() / 8);
                    lemma_bit_of_value(byte, j as nat);
                    assert(byte[j] == bits[i]);
                }
            }
        } else {
            assert(v.pending =~= bits.skip(8 * (bits.len() / 8) as int));
            assert forall|i: int| 0 <= i < 8 * (bits.len() / 8) implies #[trigger] bit_at(
                v.bytes,
                8 * front.len() + i,
            ) == bits[i] by {
                assert(bit_at(u.bytes, 8 * front.len() + i) == prev[i]);
            }
        }
    }
}

/// Pushing the low bit of `x` as a field of width one appends that one bit.
pub proof fn lemma_push_one(v: PackerView, x: nat)
    ensures
        v.push_bits(low_bits(x, 1)) == v.push_bit(x % 2 == 1),
{
    let one = low_bits(x, 1);
    assert(one.drop_last() =~= Seq::<bool>::empty());
    assert(v.push_bits(one.drop_last()) == v);
    assert(one.last() == (x % 2 == 1));
}

/// Appending a bit to a bit string appends it to what is packed.
pub proof fn lemma_push_bits_push(v: PackerView, bits: Seq<bool>, b: bool)
    ensures
        v.push_bits(bits.push(b)) == v.push_bits(bits).push_bit(b),
{
    assert(bits.push(b).drop_last() =~= bits);
}

/// What is written is read back: a field of `width` bits written after the
/// bits `before`, whatever is written after it, is found in the packed buffer
/// at its place, and its bits spell the low `width` bits of what was written.
pub proof fn lemma_field_read_back(
    front: Seq<u8>,
    before: Seq<bool>,
    x: nat,
    width: nat,
    after: Seq<bool>,
)
    ensures
        ({
            let data = packed(front, before + low_bits(x, width) + after);
            let pos = 8 * front.len() + before.len();
            &&& pos + width <= 8 * data.len()
            &&& window(data, pos as int, width as int) == low_bits(x, width)
            &&& bits_value(window(data, pos as int, width as int)) == x % pow2(width)
        }),
{
    let bits = before + low_bits(x, width) + after;
    let data = packed(front, bits);
    let pos = 8 * front.len() + before.len();
    lemma_packed(front, bits);
    lemma_low_bits_value(x, width);
    assert forall|i: int| 0 <= i < width implies window(data, pos as int, width as int)[i]
        == low_bits(x, width)[i] by {
        assert(bit_at(data, 8 * front.len() + (before.len() + i)) == bits[before.len() + i]);
    }
    assert(window(data, pos as int, width as int) =~= low_bits(x, width));
}

/// Packing after some bytes gives those bytes, then what packing after no
/// bytes gives.
pub proof fn lemma_packed_front(front: Seq<u8>, bits: Seq<bool>)
    ensures
        packed(front, bits) == front + packed(Seq::empty(), bits),
{
    lemma_view_front(front, bits);
    assert(packed(front, bits) =~= front + packed(Seq::empty(), bits));
}

proof fn lemma_view_front(front: Seq<u8>, bits: Seq<bool>)
    ensures
        PackerView::start(front).push_bits(bits).bytes == front + PackerView::start(
            Seq::empty(),
        ).push_bits(bits).bytes,
        PackerView::start(front).push_bits(bits).pending == PackerView::start(
            Seq::empty(),
        ).push_bits(bits).pending,
    decreases bits.len(),
{
    if bits.len() == 0 {
        assert(front + Seq::<u8>::empty() =~= front);
    } else {
        lemma_view_front(front, bits.drop_last());
        let a = PackerView::start(front).push_bits(bits.drop_last());
        let b = PackerView::start(Seq::empty()).push_bits(bits.drop_last());
        assert(a.push_bit(bits.last()).bytes =~= front + b.push_bit(bits.last()).bytes);
    }
}

/// Writes bit fields into a growing byte buffer.
pub struct Packer {
    result: Vec<u8>,
    working_byte: u8,
    next_bit: u8,
    pending: Ghost<Seq<bool>>,
}

impl View for Packer {
    type V = PackerView;

    closed spec fn view(&self) -> PackerView {
        PackerView { bytes: self.result@, pending: self.pending@ }
    }
}

impl Packer {
    /// The byte under construction holds the pending bits, and `next_bit` is
    /// the weight of the bit that comes next.
    pub closed spec fn wf(&self) -> bool {
        &&& self.pending@.len() < 8
        &&& self.next_bit == pow2(self.pending@.len())
        &&& self.working_byte == bits_value(self.pending@)
    }

    /// A packer that appends to `base`.
    pub fn from_vec(base: Vec<u8>) -> (p: Packer)
        ensures
            p.wf(),
            p@ == PackerView::start(base@),
    {
        proof {
            lemma2_to64();
        }
        Packer { result: base, working_byte: 0, next_bit: 1, pending: Ghost(Seq::empty()) }
    }

    /// Appends the `length` low bits of `bits`, least significant first.
    pub fn push(&mut self, bits: u8, length: u8)
        requires
            old(self).wf(),
            length <= 8,
        ensures
            final(self).wf(),
            final(self)@ == old(self)@.push_bits(low_bits(bits as nat, length as nat)),
    {
        let mut rest: u8 = bits;
        let mut bit_offset: u8 = 0;
        proof {
            lemma2_to64();
            assert(low_bits(bits as nat, 0) =~= Seq::<bool>::empty());
        }
        while bit_offset < length
            invariant
                self.wf(),
                bit_offset <= length <= 8,
                rest as nat == bits as nat / pow2(bit_offset as nat),
                self@ == old(self)@.push_bits(low_bits(bits as nat, bit_offset as nat)),
            decreases length - bit_offset,
        {
            let b: bool = rest % 2 == 1;
            proof {
                lemma2_to64();
                let k = bit_offset as nat;
                lemma_bit_of_div(bits as nat, k);
                lemma_pow2_pos(k);
                lemma_div_denominator(bits as int, pow2(k) as int, 2);
                lemma_pow2_unfold(k + 1);
                let now = low_bits(bits as nat, k);
                let next = low_bits(bits as nat, k + 1);
                assert(next.drop_last() =~= now);
                assert(next.last() == b);
                lemma_bits_value_bound(self.pending@);
                lemma_bits_value_push(self.pending@, b);
                if self.pending@.len() < 7 {
                    lemma_pow2_strictly_increases(self.pending@.len(), 7);
                    lemma_pow2_unfold(self.pending@.len() + 1);
                }
            }
            if b {
                self.working_byte = self.working_byte + self.next_bit;
            }
            if self.next_bit == 128 {
                self.next_bit = 1;
                self.result.push(self.working_byte);
                self.working_byte = 0;
                self.pending = Ghost(Seq::empty());
            } else {
                self.next_bit = self.next_bit * 2;
                self.pending = Ghost(self.pending@.push(b));
            }
            rest = rest / 2;
            bit_offset = bit_offset + 1;
        }
    }

    /// Pads the byte under construction with zero bits, writes it out if it
    /// holds any bit, and hands the buffer back.
    pub fn finish(self) -> (out: Vec<u8>)
        requires
            self.wf(),
        ensures
            out@ == self@.finish(),
    {
        proof {
            lemma2_to64();
            if self.pending@.len() > 0 {
                lemma_pow2_strictly_increases(0, self.pending@.len());
            }
        }
        let mut result = self.result;
        if self.next_bit != 1 {
            result.push(self.working_byte);
        }
        result
    }
}

/// What an unpacker holds: the buffer it reads and the position of the next
/// bit, counted from the start of the buffer.
pub struct UnpackerView {
    pub data: Seq<u8>,
    pub pos: nat,
}

/// Reads bit fields from a byte buffer.
pub struct Unpacker<'a> {
    reserve: &'a [u8],
    current_byte: usize,
    next_bit: u8,
}

pub closed spec fn weight_index(w: u8) -> nat {
    if w == 1 {
        0
    } else if w == 2 {
        1
    } else if w == 4 {
        2
    } else if w == 8 {
        3
    } else if w == 16 {
        4
    } else if w == 32 {
        5
    } else if w == 64 {
        6
    } else {
        7
    }
}

impl<'a> View for Unpacker<'a> {
    type V = UnpackerView;

    closed spec fn view(&self) -> UnpackerView {
        UnpackerView {
            data: self.reserve@,
            pos: 8 * (self.current_byte as nat) + weight_index(self.next_bit),
        }
    }
}

impl<'a> Unpacker<'a> {
    /// `next_bit` is the weight of the next bit in the current byte, and an
    /// unpacker at the end of its buffer stands at a byte boundary.
    pub closed spec fn wf(&self) -> bool {
        &&& self.next_bit == pow2(weight_index(self.next_bit))
        &&& self.current_byte <= self.reserve@.len()
        &&& self.current_byte == self.reserve@.len() ==> self.next_bit == 1
    }

    /// The position never passes the end of the buffer.
    pub proof fn lemma_pos_bound(&self)
        requires
            self.wf(),
        ensures
            self@.pos <= 8 * self@.data.len(),
    {
    }

    /// An unpacker at the first bit of `base`.
    pub fn from_vec(base: &'a [u8]) -> (u: Unpacker<'a>)
        ensures
            u.wf(),
            u@ == (UnpackerView { data: base@, pos: 0 }),
    {
        proof {
            lemma2_to64();
        }
        Unpacker { reserve: base, current_byte: 0, next_bit: 1 }
    }

    /// Reads the next `length` bits as a number, the first bit read being the
    /// least significant. Where fewer than `length` bits are left, nothing is
    /// returned and the unpacker moves to the end of the buffer.
    pub fn pop(&mut self, length: u8) -> (out: Option<u8>)
        requires
            old(self).wf(),
            length <= 8,
        ensures
            final(self).wf(),
            final(self)@.data == old(self)@.data,
            match out {
                Some(v) => {
                    &&& old(self)@.pos + length <= 8 * old(self)@.data.len()
                    &&& final(self)@.pos == old(self)@.pos + length
                    &&& v == bits_value(window(old(self)@.data, old(self)@.pos as int, length as int))
                },
                None => {
                    &&& old(self)@.pos + length > 8 * old(self)@.data.len()
                    &&& final(self)@.pos == 8 * old(self)@.data.len()
                },
            },
    {
        let mut out: u16 = 0;
        let mut weight: u16 = 1;
        let mut out_bit: u8 = 0;
        proof {
            lemma2_to64();
            assert(window(self@.data, self@.pos as int, 0) =~= Seq::<bool>::empty());
        }
        while out_bit < length
            invariant
                self.wf(),
                self.reserve == old(self).reserve,
                out_bit <= length <= 8,
                weight == pow2(out_bit as nat),
                self@.pos == old(self)@.pos + out_bit,
                out == bits_value(window(self@.data, old(self)@.pos as int, out_bit as int)),
            decreases length - out_bit,
        {
            if self.current_byte >= self.reserve.len() {
                return None;
            }
            let byte: u8 = self.reserve[self.current_byte];
            proof {
                lemma_pow2_pos(weight_index(self.next_bit));
            }
            let b: bool = (byte / self.next_bit) % 2 == 1;
            proof {
                lemma2_to64();
                let k = weight_index(self.next_bit);
                lemma_bit_of_div(byte as nat, k);
                let p = self@.pos as int;
                assert(p / 8 == self.current_byte && p % 8 == k);
                assert(b == bit_at(self@.data, p));
                let now = window(self@.data, old(self)@.pos as int, out_bit as int);
                let next = window(self@.data, old(self)@.pos as int, out_bit + 1);
                assert(next =~= now.push(b));
                lemma_bits_value_push(now, b);
                lemma_bits_value_bound(now);
                lemma_pow2_unfold((out_bit + 1) as nat);
                lemma_pow2_strictly_increases(out_bit as nat, 8);
            }
            if b {
                out = out + weight;
            }
            if self.next_bit == 128 {
                self.next_bit = 1;
                self.current_byte = self.current_byte + 1;
            } else {
                self.next_bit = self.next_bit * 2;
            }
            weight = weight * 2;
            out_bit = out_bit + 1;
        }
        proof {
            lemma2_to64();
            lemma_bits_value_bound(window(self@.data, old(self)@.pos as int, length as int));
            lemma_pow2_strictly_increases(length as nat, 9);
            assert(pow2(9) == 512) by {
                lemma_pow2_unfold(9);
            }
            if length < 8 {
                lemma_pow2_strictly_increases(length as nat, 8);
            }
        }
        Some(out as u8)
    }
}

} // verus!
