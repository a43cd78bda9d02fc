//! The block codec: a block goes through the Burrows-Wheeler transform, the
//! move-to-front transform, run-length coding and the arithmetic coder, and is
//! written after a header that holds the row of the filler and the number of
//! tokens.

use vstd::prelude::*;
use vstd::slice::slice_subrange;
use crate::arithmetic::ArithmeticEncoder;
use crate::bijective::Bijective;
use crate::bwt::{bw_forward, bw_inverse, bw_transform, try_bw_untransform, BwVec};
use crate::endian::{le_bytes, le_value, lemma_le_value_of_bytes, push_u32, read_u32};
use crate::error::SquashError;
use crate::mtf::{mtf_forward, mtf_inverse, mtf_transform, mtf_untransform};
use crate::rle::{
    lemma_runs_short, rle_forward, rle_inverse, run_length_decode, run_length_encode,
    runs_decodable, runs_fit, RunEncoded,
};

verus! {

/// The number of codes of the arithmetic coder: one for every byte, and one
/// more for the digit `B`.
pub const CODES: u32 = 257;

/// The header of a block body.
#[derive(Debug, Clone, Copy, PartialEq, Eq, Structural)]
pub struct FrontMatter {
    /// The number of tokens in the payload.
    pub length: u32,
    /// The row of the filler in the transformed block.
    pub end_index: u32,
}

/// The eight bytes of a header: the row of the filler, then the length.
pub open spec fn front_matter_bytes(length: u32, end_index: u32) -> Seq<u8> {
    le_bytes(end_index) + le_bytes(length)
}

/// The code of a token: a byte is its own code, the digit `A` has the code 0
/// and the digit `B` the code 256.
pub open spec fn code_of(x: RunEncoded) -> u32 {
    match x {
        RunEncoded::Byte(n) => n as u32,
        RunEncoded::ZeroRun(Bijective::A) => 0,
        RunEncoded::ZeroRun(Bijective::B) => 256,
    }
}

/// The token of a code: 0 is the digit `A`, 256 the digit `B`, every other
/// code a byte.
pub open spec fn symbol_of(c: u32) -> RunEncoded {
    if c == 0 {
        RunEncoded::ZeroRun(Bijective::A)
    } else if c == 256 {
        RunEncoded::ZeroRun(Bijective::B)
    } else {
        RunEncoded::Byte(c as u8)
    }
}

pub open spec fn codes_of(tokens: Seq<RunEncoded>) -> Seq<u32> {
    Seq::new(tokens.len(), |i: int| code_of(tokens[i]))
}

pub open spec fn symbols_of(codes: Seq<u32>) -> Seq<RunEncoded> {
    Seq::new(codes.len(), |i: int| symbol_of(codes[i]))
}

/// The tokens of a block: those of the run-length coded move-to-front
/// transform of its Burrows-Wheeler column.
pub open spec fn block_tokens(t: Seq<u8>) -> Seq<RunEncoded> {
    rle_forward(mtf_forward(bw_forward(t).0))
}

/// The body that the block `t` is compressed to.
pub open spec fn block_forward(t: Seq<u8>, enc: ArithmeticEncoder) -> Result<Seq<u8>, SquashError> {
    let tokens = block_tokens(t);
    if t.len() >= u32::MAX || tokens.len() > u32::MAX {
        Err(SquashError::TooLong)
    } else {
        match enc.pack_spec(
            front_matter_bytes(tokens.len() as u32, bw_forward(t).1 as u32),
            codes_of(tokens),
            CODES,
        ) {
            None => Err(SquashError::RangeExhausted),
            Some(bytes) => Ok(bytes),
        }
    }
}

/// The block that the body `data` expands to.
pub open spec fn block_inverse(data: Seq<u8>, enc: ArithmeticEncoder) -> Result<
    Seq<u8>,
    SquashError,
> {
    if data.len() < 8 {
        Err(SquashError::TooShort)
    } else {
        let end = le_value(data.subrange(0, 4));
        let length = le_value(data.subrange(4, 8));
        match enc.unpack_spec(data.skip(8), CODES, length) {
            None => Err(SquashError::Corrupt),
            Some(codes) => {
                let tokens = symbols_of(codes);
                if !runs_fit(tokens) {
                    Err(SquashError::Corrupt)
                } else {
                    match bw_inverse(mtf_inverse(rle_inverse(tokens)), end as int) {
                        None => Err(SquashError::Corrupt),
                        Some(t) => Ok(t),
                    }
                }
            },
        }
    }
}

/// A header is read back from its bytes, whatever follows them.
pub proof fn lemma_front_matter(length: u32, end_index: u32, rest: Seq<u8>)
    ensures
        ({
            let data = front_matter_bytes(length, end_index) + rest;
            &&& data.len() == 8 + rest.len()
            &&& le_value(data.subrange(0, 4)) == end_index
            &&& le_value(data.subrange(4, 8)) == length
            &&& data.skip(8) == rest
        }),
{
    let data = front_matter_bytes(length, end_index) + rest;
    lemma_le_value_of_bytes(length);
    lemma_le_value_of_bytes(end_index);
    assert(data.subrange(0, 4) =~= le_bytes(end_index));
    assert(data.subrange(4, 8) =~= le_bytes(length));
    assert(data.skip(8) =~= rest);
}

/// The header of a block with `length` tokens and the filler in row
/// `end_index`.
pub fn create_front_matter(length: u32, end_index: u32) -> (out: Vec<u8>)
    ensures
        out@ == front_matter_bytes(length, end_index),
        out@.len() == 8,
{
    let mut front_matter: Vec<u8> = Vec::new();
    push_u32(&mut front_matter, end_index);
    push_u32(&mut front_matter, length);
    assert(front_matter@ =~= front_matter_bytes(length, end_index));
    front_matter
}

/// Splits a block body into its header and its payload.
pub fn get_front_matter(body: &[u8]) -> (out: Result<(&[u8], FrontMatter), SquashError>)
    ensures
        match out {
            Err(e) => body@.len() < 8 && e == SquashError::TooShort,
            Ok((payload, front_matter)) => {
                &&& body@.len() >= 8
                &&& payload@ == body@.skip(8)
                &&& front_matter.end_index == le_value(body@.subrange(0, 4))
                &&& front_matter.length == le_value(body@.subrange(4, 8))
            },
        },
{
    if body.len() < 8 {
        return Err(SquashError::TooShort);
    }
    let end_index: u32 = read_u32(body, 0);
    let length: u32 = read_u32(body, 4);
    let payload = slice_subrange(body, 8, body.len());
    assert(payload@ =~= body@.skip(8));
    Ok((payload, FrontMatter { length, end_index }))
}

/// The code of a token.
pub fn symbol_code(x: &RunEncoded) -> (c: u32)
    ensures
        c == code_of(*x),
        c < CODES,
{
    match x {
        RunEncoded::Byte(n) => *n as u32,
        RunEncoded::ZeroRun(Bijective::A) => 0,
        RunEncoded::ZeroRun(Bijective::B) => 256,
    }
}

/// The token of a code.
pub fn code_symbol(c: u32) -> (x: RunEncoded)
    requires
        c < CODES,
    ensures
        x == symbol_of(c),
{
    if c == 0 {
        RunEncoded::ZeroRun(Bijective::A)
    } else if c == 256 {
        RunEncoded::ZeroRun(Bijective::B)
    } else {
        RunEncoded::Byte(c as u8)
    }
}

/// Compresses a block to a block body.
pub fn squash_block(plaintext: &[u8], arithmetic_encoder: &ArithmeticEncoder) -> (out: Result<
    Vec<u8>,
    SquashError,
>)
    ensures
        match out {
            Ok(body) => block_forward(plaintext@, *arithmetic_encoder) == Ok::<
                Seq<u8>,
                SquashError,
            >(body@),
            Err(e) => block_forward(plaintext@, *arithmetic_encoder) == Err::<
                Seq<u8>,
                SquashError,
            >(e),
        },
{
    if plaintext.len() >= u32::MAX as usize {
        return Err(SquashError::TooLong);
    }
    let bwt_encoded: BwVec = bw_transform(plaintext);
    let mtf_encoded: Vec<u8> = mtf_transform(bwt_encoded.block.as_slice());
    proof {
        lemma_runs_short(mtf_encoded@);
    }
    let rle_encoded: Vec<RunEncoded> = run_length_encode(mtf_encoded.as_slice());
    if rle_encoded.len() > u32::MAX as usize {
        return Err(SquashError::TooLong);
    }
    let front_matter: Vec<u8> = create_front_matter(
        rle_encoded.len() as u32,
        bwt_encoded.end_index,
    );
    let mut codes: Vec<u32> = Vec::new();
    let mut i: usize = 0;
    while i < rle_encoded.len()
        invariant
            i <= rle_encoded@.len(),
            codes@.len() == i,
            forall|j: int| 0 <= j < i ==> #[trigger] codes@[j] == code_of(rle_encoded@[j]),
            forall|j: int| 0 <= j < i ==> #[trigger] codes@[j] < CODES,
        decreases rle_encoded@.len() - i,
    {
        codes.push(symbol_code(&rle_encoded[i]));
        i = i + 1;
    }
    assert(codes@ =~= codes_of(rle_encoded@));
    match arithmetic_encoder.pack_codes(front_matter, codes.as_slice(), CODES) {
        Some(body) => Ok(body),
        None => Err(SquashError::RangeExhausted),
    }
}

/// Expands a block body to the block.
pub fn unsquash_block(ciphertext: &[u8], arithmetic_encoder: &ArithmeticEncoder) -> (out: Result<
    Vec<u8>,
    SquashError,
>)
    ensures
        match out {
            Ok(block) => block_inverse(ciphertext@, *arithmetic_encoder) == Ok::<
                Seq<u8>,
                SquashError,
            >(block@),
            Err(e) => block_inverse(ciphertext@, *arithmetic_encoder) == Err::<
                Seq<u8>,
                SquashError,
            >(e),
        },
{
    let (payload, front_matter) = match get_front_matter(ciphertext) {
        Err(e) => {
            return Err(e);
        },
        Ok(parts) => parts,
    };
    let codes: Vec<u32> = match arithmetic_encoder.unpack_codes(
        payload,
        CODES,
        front_matter.length as usize,
    ) {
        None => {
            return Err(SquashError::Corrupt);
        },
        Some(codes) => codes,
    };
    let mut tokens: Vec<RunEncoded> = Vec::new();
    let mut i: usize = 0;
    while i < codes.len()
        invariant
            i <= codes@.len(),
            tokens@.len() == i,
            forall|j: int| 0 <= j < codes@.len() ==> codes@[j] < CODES,
            forall|j: int| 0 <= j < i ==> #[trigger] tokens@[j] == symbol_of(codes@[j]),
        decreases codes@.len() - i,
    {
        tokens.push(code_symbol(codes[i]));
        i = i + 1;
    }
    assert(tokens@ =~= symbols_of(codes@));
    if !runs_decodable(tokens.as_slice()) {
        return Err(SquashError::Corrupt);
    }
    let rle_decoded: Vec<u8> = run_length_decode(tokens.as_slice());
    let mtf_decoded: Vec<u8> = mtf_untransform(rle_decoded.as_slice());
    let column = BwVec { block: mtf_decoded, end_index: front_matter.end_index };
    match try_bw_untransform(&column) {
        Some(block) => Ok(block),
        None => Err(SquashError::Corrupt),
    }
}

} // verus!
