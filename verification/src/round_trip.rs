//! Expanding what was compressed gives the input back, wherever the
//! arithmetic encoder is decisive.
//!
//! The coder works with a 64-bit interval and a reading window of 64 bits. On
//! rare inputs the interval becomes too narrow to be split, or the window hides
//! low bits that decide a code; so what holds of blocks and streams is stated
//! for the inputs on whose codes the encoder is decisive, which are the inputs
//! on which the coder finds again the codes it packed.

use vstd::prelude::*;
use crate::arithmetic::ArithmeticEncoder;
use crate::bijective::lemma_digits_short;
use crate::block::{
    block_forward, block_inverse, block_tokens, codes_of, front_matter_bytes,
    lemma_front_matter, symbols_of, CODES,
};
use crate::bwt::{bw_forward, suffix_array_of};
use crate::bwt_laws::{lemma_bwt_round_trip, lemma_row_of, lemma_suffix_array_exists};
use crate::endian::{le_bytes, lemma_le_value_of_bytes};
use crate::error::SquashError;
use crate::mtf::{lemma_forward_prefix, lemma_mtf_round_trip, mtf_forward};
use crate::packer::{lemma_packed_front, packed};
use crate::rle::{
    digit_tokens, leading_zeros, lemma_leading_zeros_bound, lemma_rle_round_trip,
    lemma_runs_short, rle_forward, RunEncoded,
};
use crate::stream::{
    blocks_forward, blocks_inverse, first_block, stream_forward, stream_header,
    stream_inverse, FILETYPE_VERSION, MAGIC_NUMBER,
};

verus! {

/// The encoder is decisive on the codes of every block of `input`.
pub open spec fn blocks_decisive(input: Seq<u8>, enc: ArithmeticEncoder) -> bool
    decreases input.len(),
{
    input.len() == 0 || {
        let n = first_block(input.len());
        &&& enc.decisive(CODES, codes_of(block_tokens(input.take(n as int))))
        &&& blocks_decisive(input.skip(n as int), enc)
    }
}

/// The tokens of bytes hold no zero byte, and are no more than the bytes.
pub proof fn lemma_tokens(s: Seq<u8>)
    ensures
        rle_forward(s).len() <= s.len(),
        forall|i: int| 0 <= i < rle_forward(s).len() ==> rle_forward(s)[i] != RunEncoded::Byte(0),
    decreases s.len(),
{
    let tokens = rle_forward(s);
    if s.len() == 0 {
    } else if s[0] != 0 {
        lemma_tokens(s.drop_first());
        assert forall|i: int| 0 <= i < tokens.len() implies tokens[i] != RunEncoded::Byte(0) by {
            if i > 0 {
                assert(tokens[i] == rle_forward(s.drop_first())[i - 1]);
            }
        }
    } else {
        let run = leading_zeros(s);
        lemma_leading_zeros_bound(s);
        lemma_digits_short(run);
        lemma_tokens(s.skip(run as int));
        let head = digit_tokens(crate::bijective::bijective_digits(run));
        assert forall|i: int| 0 <= i < tokens.len() implies tokens[i] != RunEncoded::Byte(0) by {
            if i >= head.len() {
                assert(tokens[i] == rle_forward(s.skip(run as int))[i - head.len()]);
            }
        }
    }
}

/// Tokens without a zero byte are the tokens of their codes.
pub proof fn lemma_symbols_of_codes(tokens: Seq<RunEncoded>)
    requires
        forall|i: int| 0 <= i < tokens.len() ==> tokens[i] != RunEncoded::Byte(0),
    ensures
        symbols_of(codes_of(tokens)) == tokens,
        forall|i: int| 0 <= i < tokens.len() ==> #[trigger] codes_of(tokens)[i] < CODES,
{
    assert(symbols_of(codes_of(tokens)) =~= tokens);
}

/// The column of a block has one row more than the block has bytes, and the
/// row of the filler is one of them; an empty block has an empty column.
pub proof fn lemma_forward_shape(t: Seq<u8>)
    requires
        t.len() < usize::MAX,
    ensures
        bw_forward(t).0.len() == if t.len() == 0 {
            0
        } else {
            t.len() + 1
        },
        0 <= bw_forward(t).1 <= t.len(),
{
    if t.len() > 0 {
        lemma_suffix_array_exists(t);
        lemma_row_of(t, suffix_array_of(t), 0);
    }
}

/// Expanding the body that a block is compressed to gives the block back,
/// where the encoder is decisive on the codes of the block.
pub proof fn lemma_block_round_trip(t: Seq<u8>, enc: ArithmeticEncoder)
    requires
        t.len() < u32::MAX,
        enc.decisive(CODES, codes_of(block_tokens(t))),
    ensures
        block_forward(t, enc) is Ok,
        block_inverse(block_forward(t, enc)->Ok_0, enc) == Ok::<Seq<u8>, SquashError>(t),
        8 < block_forward(t, enc)->Ok_0.len() <= 8 * t.len() + 17,
{
    let column = bw_forward(t).0;
    let end = bw_forward(t).1;
    let ranks = mtf_forward(column);
    let tokens = block_tokens(t);
    let codes = codes_of(tokens);
    lemma_forward_shape(t);
    lemma_forward_prefix(column, 0);
    lemma_tokens(ranks);
    lemma_symbols_of_codes(tokens);
    enc.lemma_coder_round_trip(CODES, codes);
    lemma_runs_short(ranks);
    lemma_rle_round_trip(ranks);
    lemma_mtf_round_trip(column);
    lemma_bwt_round_trip(t);
    let front = front_matter_bytes(tokens.len() as u32, end as u32);
    let payload = enc.pack_spec(Seq::empty(), codes, CODES)->0;
    let bits = enc.encoded(CODES, codes, codes.len())->0.bits.push(true);
    lemma_packed_front(front, bits);
    let body = block_forward(t, enc)->Ok_0;
    assert(body == front + payload);
    lemma_front_matter(tokens.len() as u32, end as u32, payload);
    enc.lemma_packed_length(front, codes, CODES);
    assert(front.len() == 8);
}

/// The parameters are read back from the bytes that carry them.
pub proof fn lemma_config_round_trip(enc: ArithmeticEncoder)
    ensures
        enc.config_bytes().len() == 12,
        ArithmeticEncoder::config_of(enc.config_bytes()) == enc,
{
    let bytes = enc.config_bytes();
    lemma_le_value_of_bytes(enc.frequency_memory);
    lemma_le_value_of_bytes(enc.frequency_padding);
    lemma_le_value_of_bytes(enc.recalculation_frequency);
    assert(bytes.subrange(0, 4) =~= le_bytes(enc.frequency_memory));
    assert(bytes.subrange(4, 8) =~= le_bytes(enc.frequency_padding));
    assert(bytes.subrange(8, 12) =~= le_bytes(enc.recalculation_frequency));
}

/// Expanding the framed blocks that bytes are compressed to gives the bytes
/// back, where the encoder is decisive on the codes of every block.
pub proof fn lemma_blocks_round_trip(input: Seq<u8>, enc: ArithmeticEncoder)
    requires
        blocks_decisive(input, enc),
    ensures
        blocks_forward(input, enc) is Ok,
        blocks_inverse(blocks_forward(input, enc)->Ok_0, enc) == Ok::<Seq<u8>, SquashError>(
            input,
        ),
    decreases input.len(),
{
    if input.len() > 0 {
        let n = first_block(input.len()) as int;
        let block = input.take(n);
        let rest = input.skip(n);
        lemma_block_round_trip(block, enc);
        lemma_blocks_round_trip(rest, enc);
        let body = block_forward(block, enc)->Ok_0;
        let tail = blocks_forward(rest, enc)->Ok_0;
        let frame = le_bytes(body.len() as u32) + body;
        let data = frame + tail;
        assert(blocks_forward(input, enc) == Ok::<Seq<u8>, SquashError>(data));
        lemma_le_value_of_bytes(body.len() as u32);
        assert(data.subrange(0, 4) =~= le_bytes(body.len() as u32));
        assert(data.subrange(4, 4 + body.len() as int) =~= body);
        assert(data.skip(4 + body.len() as int) =~= tail);
        assert(block + rest =~= input);
    } else {
        assert(input =~= Seq::<u8>::empty());
    }
}

/// Expanding the stream that bytes are compressed to gives the bytes back,
/// where the encoder is decisive on the codes of every block.
pub proof fn lemma_stream_round_trip(input: Seq<u8>, enc: ArithmeticEncoder)
    requires
        blocks_decisive(input, enc),
    ensures
        stream_forward(input, enc) is Ok,
        stream_inverse(stream_forward(input, enc)->Ok_0, enc) == Ok::<Seq<u8>, SquashError>(
            input,
        ),
{
    lemma_blocks_round_trip(input, enc);
    lemma_config_round_trip(enc);
    lemma_le_value_of_bytes(MAGIC_NUMBER);
    let header = stream_header(enc);
    let blocks = blocks_forward(input, enc)->Ok_0;
    let data = header + blocks;
    assert(stream_forward(input, enc) == Ok::<Seq<u8>, SquashError>(data));
    assert(header.len() == 17);
    assert(data.subrange(0, 4) =~= le_bytes(MAGIC_NUMBER));
    assert(data[4] == FILETYPE_VERSION);
    assert(data.subrange(5, 17) =~= enc.config_bytes());
    assert(data.skip(17) =~= blocks);
}

} // verus!
