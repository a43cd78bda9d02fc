use squash::arithmetic::{pack_arithmetic, unpack_arithmetic, ArithmeticEncoder};
use squash::bijective::Bijective;
use squash::block::{
    code_symbol, create_front_matter, get_front_matter, squash_block, symbol_code, unsquash_block,
};
use squash::bwt::{bw_transform, bw_untransform, BwVec};
use squash::error::SquashError;
use squash::mtf::{mtf_transform, mtf_untransform};
use squash::rle::{run_length_decode, run_length_encode, RunEncoded};
use std::convert::TryFrom;
use std::convert::TryInto;

const TEXT: &str = "When you create a closure, Rust infers which \
    trait to use based on how the closure uses the values from the environment. All \
    closures implement FnOnce because they can all be called at least once. Closures \
    that don't move the captured variables also implement FnMut, and closures that \
    don't need mutable access to the captured variables also implement Fn. In Listing \
    13-12, the equal_to_x closure borrows x immutably (so equal_to_x has the Fn trait \
    ) because the body of the closure only needs to read the value in x.\n\
    If you want to force the closure to take ownership of the values it uses in the \
    environment, you can use the move keyword before the parameter list. This technique \
    is mostly useful when passing a closure to a new thread to move the data so it's \
    owned by the new thread.\n";

const LONG_TEXT: &str = "When you create a closure, Rust infers which \
     trait to use based on how the closure uses the values from the environment. All \
     closures implement FnOnce because they can all be called at least once. Closures \
     that don't move the captured variables also implement FnMut, and closures that \
     don't need mutable access to the captured variables also implement Fn. In Listing \
     13-12, the equal_to_x closure borrows x immutably (so equal_to_x has the Fn trait \
     ) because the body of the closure only needs to read the value in x.\n\
     If you want to force the closure to take ownership of the values it uses in the \
     environment, you can use the move keyword before the parameter list. This technique \
     is mostly useful when passing a closure to a new thread to move the data so it's \
     owned by the new thread.\n\
     We'll have more examples of move closures in Chapter 16 when we talk about concurrency. \
     For now, here's the code from Listing 13-12 with the move keyword added to the \
     closure definition and using vectors instead of integers, because integers can \
     be copied rather than moved; note that this code will not yet compile.";

#[test]
fn mod_e2e_test() {
    let plaintext = LONG_TEXT.as_bytes();
    let arithmetic_encoder = ArithmeticEncoder::default_encoder();
    let squashed = squash_block(plaintext, &arithmetic_encoder).unwrap();
    let unsquashed = unsquash_block(&squashed, &arithmetic_encoder).unwrap();
    assert_eq!(
        String::from_utf8_lossy(plaintext),
        String::from_utf8_lossy(&unsquashed[..])
    );
}

#[test]
fn squash_e2e_test() {
    let plaintext = TEXT.as_bytes();
    let arithmetic_encoder = ArithmeticEncoder::default_encoder();
    let squashed = squash_block(plaintext, &arithmetic_encoder).unwrap();
    let unsquashed = unsquash_block(&squashed, &arithmetic_encoder).unwrap();
    assert_eq!(
        String::from_utf8_lossy(plaintext),
        String::from_utf8_lossy(&unsquashed[..])
    );
}

#[test]
fn mod_exploded_squash_test() {
    let bwt_encoded = bw_transform(LONG_TEXT.as_bytes());
    let mtf_encoded = mtf_transform(&bwt_encoded.block);
    let rle_encoded = run_length_encode(&mtf_encoded);
    let front_matter = create_front_matter(
        rle_encoded.len().try_into().unwrap(),
        bwt_encoded.end_index.try_into().unwrap(),
    );
    let arith_encoded = pack_arithmetic(
        front_matter,
        &rle_encoded,
        |x| match x {
            RunEncoded::Byte(n) => u32::from(*n),
            RunEncoded::ZeroRun(Bijective::A) => 0,
            RunEncoded::ZeroRun(Bijective::B) => 256,
        },
        257,
    )
    .unwrap();

    let (body, front_matter) = get_front_matter(&arith_encoded).unwrap();
    let arith_decoded = unpack_arithmetic(
        body,
        |x| match x {
            0 => RunEncoded::ZeroRun(Bijective::A),
            256 => RunEncoded::ZeroRun(Bijective::B),
            n => RunEncoded::Byte(u8::try_from(n).unwrap()),
        },
        257,
        front_matter.length.try_into().unwrap(),
    )
    .unwrap();
    let rle_decoded = run_length_decode(&arith_decoded);
    let mtf_decoded = mtf_untransform(&rle_decoded);
    assert_eq!(arith_decoded, rle_encoded);
    assert_eq!(rle_decoded.len(), mtf_encoded.len());
    assert_eq!(rle_decoded, mtf_encoded);
    assert_eq!(mtf_decoded, bwt_encoded.block);
    let bw_decoded = bw_untransform(&BwVec {
        block: mtf_decoded,
        end_index: front_matter.end_index,
    });
    assert_eq!(bwt_encoded.end_index, front_matter.end_index);
    assert_eq!(rle_encoded.len(), front_matter.length.try_into().unwrap());
    assert_eq!(String::from_utf8_lossy(&bw_decoded), LONG_TEXT);
}

#[test]
fn squash_exploded_squash_test() {
    let arithmetic_encoder = ArithmeticEncoder::default_encoder();
    let bwt_encoded = bw_transform(TEXT.as_bytes());
    let mtf_encoded = mtf_transform(&bwt_encoded.block);
    let rle_encoded = run_length_encode(&mtf_encoded);
    let front_matter =
        create_front_matter(rle_encoded.len().try_into().unwrap(), bwt_encoded.end_index);
    let arith_encoded = arithmetic_encoder
        .pack(
            front_matter,
            &rle_encoded,
            |x| match x {
                RunEncoded::Byte(n) => u32::from(*n),
                RunEncoded::ZeroRun(Bijective::A) => 0,
                RunEncoded::ZeroRun(Bijective::B) => 256,
            },
            257,
        )
        .unwrap();

    let (body, front_matter) = get_front_matter(&arith_encoded).unwrap();
    let arith_decoded = arithmetic_encoder
        .unpack(
            body,
            |x| match x {
                0 => RunEncoded::ZeroRun(Bijective::A),
                256 => RunEncoded::ZeroRun(Bijective::B),
                n => RunEncoded::Byte(u8::try_from(n).unwrap()),
            },
            257,
            front_matter.length.try_into().unwrap(),
        )
        .unwrap();
    let rle_decoded = run_length_decode(&arith_decoded);
    let mtf_decoded = mtf_untransform(&rle_decoded);
    assert_eq!(arith_decoded, rle_encoded);
    assert_eq!(rle_decoded.len(), mtf_encoded.len());
    assert_eq!(rle_decoded, mtf_encoded);
    assert_eq!(mtf_decoded, bwt_encoded.block);
    let bw_decoded = bw_untransform(&BwVec {
        block: mtf_decoded,
        end_index: front_matter.end_index,
    });
    assert_eq!(bwt_encoded.end_index, front_matter.end_index);
    assert_eq!(rle_encoded.len(), front_matter.length.try_into().unwrap());
    assert_eq!(String::from_utf8_lossy(&bw_decoded), TEXT);
}

#[test]
fn test_exploded_squash_test() {
    let bwt_encoded = bw_transform(LONG_TEXT.as_bytes());
    let mtf_encoded = mtf_transform(&bwt_encoded.block);
    let rle_encoded = run_length_encode(&mtf_encoded);
    let arith_encoded = pack_arithmetic(
        vec![],
        &rle_encoded,
        |x| match x {
            RunEncoded::Byte(n) => u32::from(*n),
            RunEncoded::ZeroRun(Bijective::A) => 0,
            RunEncoded::ZeroRun(Bijective::B) => 256,
        },
        257,
    )
    .unwrap();
    let mut cyphertext = create_front_matter(
        rle_encoded.len().try_into().unwrap(),
        bwt_encoded.end_index,
    );
    cyphertext.extend_from_slice(&arith_encoded);

    let (body, front_matter) = get_front_matter(&cyphertext).unwrap();
    let arith_decoded = unpack_arithmetic(
        body,
        |x| match x {
            0 => RunEncoded::ZeroRun(Bijective::A),
            256 => RunEncoded::ZeroRun(Bijective::B),
            n => RunEncoded::Byte(u8::try_from(n).unwrap()),
        },
        257,
        front_matter.length.try_into().unwrap(),
    )
    .unwrap();
    let rle_decoded = run_length_decode(&arith_decoded);
    let mtf_decoded = mtf_untransform(&rle_decoded);
    assert_eq!(body, &arith_encoded[..]);
    assert_eq!(arith_decoded, rle_encoded);
    assert_eq!(rle_decoded.len(), mtf_encoded.len());
    assert_eq!(rle_decoded, mtf_encoded);
    assert_eq!(mtf_decoded, bwt_encoded.block);
    let bw_decoded = bw_untransform(&BwVec {
        block: mtf_decoded,
        end_index: front_matter.end_index,
    });
    assert_eq!(bwt_encoded.end_index, front_matter.end_index);
    assert_eq!(rle_encoded.len(), usize::try_from(front_matter.length).unwrap());
    assert_eq!(String::from_utf8_lossy(&bw_decoded), LONG_TEXT);
}

#[test]
fn mod_front_matter() {
    let len = 352_354_634;
    let e_i = 1_112_323_534;
    let mut block = create_front_matter(len, e_i);
    block.append(&mut vec![1, 2, 3]);
    let (body, f_m) = get_front_matter(&block).unwrap();
    assert_eq!(f_m.length, len);
    assert_eq!(f_m.end_index, e_i);
    assert_eq!(&body, &[1, 2, 3]);
}

#[test]
fn squash_front_matter() {
    let len = 352_354_634;
    let e_i = 1_112_323_534;
    let mut block = create_front_matter(len, e_i);
    block.append(&mut vec![1, 2, 3]);
    let (body, f_m) = get_front_matter(&block).unwrap();
    assert_eq!(f_m.length, len);
    assert_eq!(f_m.end_index, e_i);
    assert_eq!(&body, &[1, 2, 3]);
}

#[test]
fn front_matter_bytes_are_exact() {
    assert_eq!(
        create_front_matter(0x0403_0201, 0x0807_0605),
        vec![5, 6, 7, 8, 1, 2, 3, 4]
    );
    let (body, f_m) = get_front_matter(&[5, 6, 7, 8, 1, 2, 3, 4]).unwrap();
    assert_eq!(f_m.end_index, 0x0807_0605);
    assert_eq!(f_m.length, 0x0403_0201);
    assert!(body.is_empty());
    assert_eq!(get_front_matter(&[1, 2, 3, 4, 5, 6, 7]).err(), Some(SquashError::TooShort));
    assert_eq!(SquashError::TooShort.message(), "too short");
}

#[test]
fn tokens_and_codes() {
    assert_eq!(symbol_code(&RunEncoded::Byte(7)), 7);
    assert_eq!(symbol_code(&RunEncoded::Byte(255)), 255);
    assert_eq!(symbol_code(&RunEncoded::ZeroRun(Bijective::A)), 0);
    assert_eq!(symbol_code(&RunEncoded::ZeroRun(Bijective::B)), 256);
    assert_eq!(code_symbol(0), RunEncoded::ZeroRun(Bijective::A));
    assert_eq!(code_symbol(256), RunEncoded::ZeroRun(Bijective::B));
    assert_eq!(code_symbol(1), RunEncoded::Byte(1));
    assert_eq!(code_symbol(255), RunEncoded::Byte(255));
}

#[test]
fn blocks_of_every_kind() {
    let arithmetic_encoder = ArithmeticEncoder::default_encoder();
    let mut blocks: Vec<Vec<u8>> = vec![
        vec![],
        vec![0],
        vec![36],
        b"banana banana banana".to_vec(),
        vec![0; 1000],
        vec![255; 777],
        (0..=255u8).collect(),
    ];
    blocks.push((0..5000usize).map(|i| ((i * 31 + i / 7) % 251) as u8).collect());
    for block in blocks {
        let squashed = squash_block(&block, &arithmetic_encoder).unwrap();
        assert_eq!(unsquash_block(&squashed, &arithmetic_encoder), Ok(block));
    }
}

#[test]
fn block_bodies_that_are_no_block() {
    let arithmetic_encoder = ArithmeticEncoder::default_encoder();
    assert_eq!(
        unsquash_block(&[1, 2, 3], &arithmetic_encoder),
        Err(SquashError::TooShort)
    );
    // two tokens, and the filler in a row that the column does not have
    let squashed = squash_block(b"ab", &arithmetic_encoder).unwrap();
    let mut broken = squashed.clone();
    broken[0] = 9;
    assert_eq!(
        unsquash_block(&broken, &arithmetic_encoder),
        Err(SquashError::Corrupt)
    );
    // a payload that ends early is read as if zero bits followed
    let mut cut = squash_block(TEXT.as_bytes(), &arithmetic_encoder).unwrap();
    cut.truncate(60);
    assert!(unsquash_block(&cut, &arithmetic_encoder) != Ok(TEXT.as_bytes().to_vec()));
}

#[test]
fn block_that_the_coder_cannot_split_for() {
    let arithmetic_encoder = ArithmeticEncoder::default_encoder();
    let block = [
        235, 122, 68, 140, 125, 29, 234, 126, 9, 124, 46, 142, 108, 103, 123, 65, 192, 171, 167,
        127,
    ];
    assert_eq!(
        squash_block(&block, &arithmetic_encoder),
        Err(SquashError::RangeExhausted)
    );
    assert_eq!(squash::stream::squash(&block), Err(SquashError::RangeExhausted));
    // one byte less, and the block goes through
    let squashed = squash_block(&block[..19], &arithmetic_encoder).unwrap();
    assert_eq!(unsquash_block(&squashed, &arithmetic_encoder), Ok(block[..19].to_vec()));
}
