//! The stream format: a header with the magic number, the version and the
//! coder parameters, then the blocks, each as a length and a body.

use vstd::prelude::*;
use vstd::slice::slice_subrange;
use crate::arithmetic::ArithmeticEncoder;
use crate::block::{block_forward, block_inverse, squash_block, unsquash_block};
use crate::endian::{le_bytes, le_value, push_bytes, push_u32, read_u32};
use crate::error::SquashError;

verus! {

/// The number of bytes that are compressed as one block.
pub const BLOCK_SIZE: usize = 262_144;

/// The number that a stream begins with.
pub const MAGIC_NUMBER: u32 = 0xca55_e77e;

/// The version of the stream format.
pub const FILETYPE_VERSION: u8 = 1;

/// The seventeen bytes that a stream begins with.
pub open spec fn stream_header(enc: ArithmeticEncoder) -> Seq<u8> {
    le_bytes(MAGIC_NUMBER) + seq![FILETYPE_VERSION] + enc.config_bytes()
}

/// The bytes that a stream written with the parameters of the format
/// begins with.
pub proof fn lemma_default_header()
    ensures
        stream_header(ArithmeticEncoder::default_spec()) == seq![
            0x7eu8,
            0xe7,
            0x55,
            0xca,
            0x01,
            0x10,
            0x27,
            0x00,
            0x00,
            0x32,
            0x00,
            0x00,
            0x00,
            0x32,
            0x00,
            0x00,
            0x00,
        ],
{
    let enc = ArithmeticEncoder::default_spec();
    assert(le_bytes(MAGIC_NUMBER) =~= seq![0x7eu8, 0xe7, 0x55, 0xca]);
    assert(le_bytes(enc.frequency_memory) =~= seq![0x10u8, 0x27, 0x00, 0x00]);
    assert(le_bytes(enc.frequency_padding) =~= seq![0x32u8, 0x00, 0x00, 0x00]);
    assert(le_bytes(enc.recalculation_frequency) =~= seq![0x32u8, 0x00, 0x00, 0x00]);
    assert(stream_header(enc) =~= seq![
        0x7eu8,
        0xe7,
        0x55,
        0xca,
        0x01,
        0x10,
        0x27,
        0x00,
        0x00,
        0x32,
        0x00,
        0x00,
        0x00,
        0x32,
        0x00,
        0x00,
        0x00,
    ]);
}

/// The result `r` with `prefix` before what it holds.
pub open spec fn prepend(prefix: Seq<u8>, r: Result<Seq<u8>, SquashError>) -> Result<
    Seq<u8>,
    SquashError,
> {
    match r {
        Ok(rest) => Ok(prefix + rest),
        Err(e) => Err(e),
    }
}

/// The length of the first block of an input of `len` bytes.
pub open spec fn first_block(len: nat) -> nat {
    if len < BLOCK_SIZE {
        len
    } else {
        BLOCK_SIZE as nat
    }
}

/// The framed blocks that `input` is compressed to.
pub open spec fn blocks_forward(input: Seq<u8>, enc: ArithmeticEncoder) -> Result<
    Seq<u8>,
    SquashError,
>
    decreases input.len(),
{
    if input.len() == 0 {
        Ok(Seq::empty())
    } else {
        let n = first_block(input.len());
        match block_forward(input.take(n as int), enc) {
            Err(e) => Err(e),
            Ok(body) => if body.len() > u32::MAX {
                Err(SquashError::TooLong)
            } else {
                prepend(le_bytes(body.len() as u32) + body, blocks_forward(input.skip(n as int), enc))
            },
        }
    }
}

/// The stream that `input` is compressed to.
pub open spec fn stream_forward(input: Seq<u8>, enc: ArithmeticEncoder) -> Result<
    Seq<u8>,
    SquashError,
> {
    prepend(stream_header(enc), blocks_forward(input, enc))
}

/// The bytes that the framed blocks `data` expand to.
pub open spec fn blocks_inverse(data: Seq<u8>, enc: ArithmeticEncoder) -> Result<
    Seq<u8>,
    SquashError,
>
    decreases data.len(),
{
    if data.len() == 0 {
        Ok(Seq::empty())
    } else if data.len() < 4 {
        Err(SquashError::Truncated)
    } else {
        let n = le_value(data.subrange(0, 4)) as int;
        if data.len() - 4 < n {
            Err(SquashError::Truncated)
        } else {
            match block_inverse(data.subrange(4, 4 + n), enc) {
                Err(e) => Err(e),
                Ok(block) => prepend(block, blocks_inverse(data.skip(4 + n), enc)),
            }
        }
    }
}

/// The bytes that the stream `data` expands to, for a reader that works with
/// the parameters `enc`.
pub open spec fn stream_inverse(data: Seq<u8>, enc: ArithmeticEncoder) -> Result<
    Seq<u8>,
    SquashError,
> {
    if data.len() < 4 {
        Err(SquashError::Truncated)
    } else if le_value(data.subrange(0, 4)) != MAGIC_NUMBER {
        Err(SquashError::BadMagic)
    } else if data.len() < 5 {
        Err(SquashError::Truncated)
    } else if data[4] != FILETYPE_VERSION {
        Err(SquashError::BadVersion)
    } else if data.len() < 17 {
        Err(SquashError::Truncated)
    } else if ArithmeticEncoder::config_of(data.subrange(5, 17)) != enc {
        Err(SquashError::BadParameters)
    } else {
        blocks_inverse(data.skip(17), enc)
    }
}

pub proof fn lemma_prepend_twice(a: Seq<u8>, b: Seq<u8>, r: Result<Seq<u8>, SquashError>)
    ensures
        prepend(a, prepend(b, r)) == prepend(a + b, r),
{
    if r is Ok {
        assert(a + (b + r->Ok_0) =~= (a + b) + r->Ok_0);
    }
}

/// How the framed blocks from position `pos` of `data` expand.
proof fn lemma_blocks_inverse_at(data: Seq<u8>, pos: int, enc: ArithmeticEncoder)
    requires
        0 <= pos < data.len(),
    ensures
        blocks_inverse(data.skip(pos), enc) == (if data.len() - pos < 4 {
            Err::<Seq<u8>, SquashError>(SquashError::Truncated)
        } else {
            let n = le_value(data.subrange(pos, pos + 4)) as int;
            if data.len() - pos - 4 < n {
                Err(SquashError::Truncated)
            } else {
                match block_inverse(data.subrange(pos + 4, pos + 4 + n), enc) {
                    Err(e) => Err(e),
                    Ok(block) => prepend(block, blocks_inverse(data.skip(pos + 4 + n), enc)),
                }
            }
        }),
{
    let here = data.skip(pos);
    if here.len() >= 4 {
        assert(here.subrange(0, 4) =~= data.subrange(pos, pos + 4));
        let n = le_value(data.subrange(pos, pos + 4)) as int;
        if here.len() - 4 >= n {
            assert(here.subrange(4, 4 + n) =~= data.subrange(pos + 4, pos + 4 + n));
            assert(here.skip(4 + n) =~= data.skip(pos + 4 + n));
        }
    }
}

/// Compresses the bytes of `input` to a stream.
pub fn squash(input: &[u8]) -> (out: Result<Vec<u8>, SquashError>)
    ensures
        match out {
            Ok(stream) => stream_forward(input@, ArithmeticEncoder::default_spec()) == Ok::<
                Seq<u8>,
                SquashError,
            >(stream@),
            Err(e) => stream_forward(input@, ArithmeticEncoder::default_spec()) == Err::<
                Seq<u8>,
                SquashError,
            >(e),
        },
{
    let arithmetic_encoder = ArithmeticEncoder::default_encoder();
    let ghost enc = arithmetic_encoder;
    let ghost header = stream_header(enc);
    let mut out: Vec<u8> = Vec::new();
    push_u32(&mut out, MAGIC_NUMBER);
    out.push(FILETYPE_VERSION);
    let config: Vec<u8> = arithmetic_encoder.write_config();
    push_bytes(&mut out, config.as_slice());
    let ghost mut written: Seq<u8> = Seq::empty();
    let mut pos: usize = 0;
    proof {
        assert(out@ =~= header + written);
        assert(input@.skip(0) =~= input@);
    }
    while pos < input.len()
        invariant
            pos <= input@.len(),
            enc == arithmetic_encoder,
            enc == ArithmeticEncoder::default_spec(),
            header == stream_header(enc),
            out@ == header + written,
            blocks_forward(input@, enc) == prepend(
                written,
                blocks_forward(input@.skip(pos as int), enc),
            ),
        decreases input@.len() - pos,
    {
        let left: usize = input.len() - pos;
        let n: usize = if left < BLOCK_SIZE {
            left
        } else {
            BLOCK_SIZE
        };
        let ghost here = input@.skip(pos as int);
        let block = slice_subrange(input, pos, pos + n);
        proof {
            assert(block@ =~= here.take(n as int));
            assert(here.skip(n as int) =~= input@.skip(pos + n));
        }
        let squashed: Vec<u8> = match squash_block(block, &arithmetic_encoder) {
            Err(e) => {
                return Err(e);
            },
            Ok(body) => body,
        };
        if squashed.len() > u32::MAX as usize {
            return Err(SquashError::TooLong);
        }
        push_u32(&mut out, squashed.len() as u32);
        push_bytes(&mut out, squashed.as_slice());
        proof {
            let frame = le_bytes(squashed@.len() as u32) + squashed@;
            let rest = blocks_forward(input@.skip(pos + n), enc);
            assert(blocks_forward(here, enc) == prepend(frame, rest));
            if rest is Ok {
                assert(written + (frame + rest->Ok_0) =~= (written + frame) + rest->Ok_0);
            }
            written = written + frame;
            assert(out@ =~= header + written);
        }
        pos = pos + n;
    }
    proof {
        assert(input@.skip(pos as int).len() == 0);
        assert(written + Seq::<u8>::empty() =~= written);
    }
    Ok(out)
}

/// Expands a stream to the bytes it was compressed from.
pub fn unsquash(stream: &[u8]) -> (out: Result<Vec<u8>, SquashError>)
    ensures
        match out {
            Ok(bytes) => stream_inverse(stream@, ArithmeticEncoder::default_spec()) == Ok::<
                Seq<u8>,
                SquashError,
            >(bytes@),
            Err(e) => stream_inverse(stream@, ArithmeticEncoder::default_spec()) == Err::<
                Seq<u8>,
                SquashError,
            >(e),
        },
{
    let ghost data = stream@;
    let arithmetic_encoder = ArithmeticEncoder::default_encoder();
    let ghost enc = arithmetic_encoder;
    if stream.len() < 4 {
        return Err(SquashError::Truncated);
    }
    if read_u32(stream, 0) != MAGIC_NUMBER {
        return Err(SquashError::BadMagic);
    }
    if stream.len() < 5 {
        return Err(SquashError::Truncated);
    }
    if stream[4] != FILETYPE_VERSION {
        return Err(SquashError::BadVersion);
    }
    if stream.len() < 17 {
        return Err(SquashError::Truncated);
    }
    let found = match ArithmeticEncoder::read_config(slice_subrange(stream, 5, 17)) {
        None => {
            return Err(SquashError::Truncated);
        },
        Some(found) => found,
    };
    if found.frequency_memory != arithmetic_encoder.frequency_memory || found.frequency_padding
        != arithmetic_encoder.frequency_padding || found.recalculation_frequency
        != arithmetic_encoder.recalculation_frequency {
        return Err(SquashError::BadParameters);
    }
    let mut out: Vec<u8> = Vec::new();
    let mut pos: usize = 17;
    proof {
        assert(out@ + Seq::<u8>::empty() =~= out@);
        assert(found == ArithmeticEncoder::config_of(data.subrange(5, 17)));
        assert(stream_inverse(data, enc) == blocks_inverse(data.skip(17), enc));
    }
    while pos < stream.len()
        invariant
            17 <= pos <= data.len(),
            data == stream@,
            enc == arithmetic_encoder,
            enc == ArithmeticEncoder::default_spec(),
            stream_inverse(data, enc) == prepend(out@, blocks_inverse(data.skip(pos as int), enc)),
        decreases data.len() - pos,
    {
        let ghost done = out@;
        proof {
            lemma_blocks_inverse_at(data, pos as int, enc);
        }
        if stream.len() - pos < 4 {
            return Err(SquashError::Truncated);
        }
        let n: usize = read_u32(stream, pos) as usize;
        if stream.len() - pos - 4 < n {
            return Err(SquashError::Truncated);
        }
        let body = slice_subrange(stream, pos + 4, pos + 4 + n);
        let block: Vec<u8> = match unsquash_block(body, &arithmetic_encoder) {
            Err(e) => {
                return Err(e);
            },
            Ok(block) => block,
        };
        push_bytes(&mut out, block.as_slice());
        proof {
            lemma_prepend_twice(done, block@, blocks_inverse(data.skip(pos + 4 + n), enc));
        }
        pos = pos + 4 + n;
    }
    proof {
        assert(data.skip(pos as int).len() == 0);
        assert(out@ + Seq::<u8>::empty() =~= out@);
    }
    Ok(out)
}

} // verus!
