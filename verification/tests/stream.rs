use squash::error::SquashError;
use squash::stream::{squash, unsquash, BLOCK_SIZE};

const LONG_TEXT: &str = "When you create a closure, Rust infers which \
     trait to use based on how the closure uses the values from the environment. All \
     closures implement FnOnce because they can all be called at least once. Closures \
     that don't move the captured variables also implement FnMut, and closures that \
     don't need mutable access to the captured variables also implement Fn. In Listing \
     13-12, the equal_to_x closure borrows x immutably (so equal_to_x has the Fn trait \
     ) because the body of the closure only needs to read the value in x.\n\
     If you want to force the closure to take ownership of the values it uses in the \
     environment, you can use the move keyword before the parameter list. This technique \
     is mostly useful when passing a closure to a new thread to move the data so it's \
     owned by the new thread.\n\
     We'll have more examples of move closures in Chapter 16 when we talk about concurrency. \
     For now, here's the code from Listing 13-12 with the move keyword added to the \
     closure definition and using vectors instead of integers, because integers can \
     be copied rather than moved; note that this code will not yet compile.";

const HEADER: [u8; 17] = [
    0x7e, 0xe7, 0x55, 0xca, 0x01, 0x10, 0x27, 0x00, 0x00, 0x32, 0x00, 0x00, 0x00, 0x32, 0x00, 0x00,
    0x00,
];

#[test]
fn test_e2e_test() {
    let plaintext = LONG_TEXT.as_bytes();
    let squashed = squash(plaintext).unwrap();
    let unsquashed = unsquash(&squashed).unwrap();
    assert_eq!(
        String::from_utf8_lossy(plaintext),
        String::from_utf8_lossy(&unsquashed[..])
    );
}

#[test]
fn empty_input_is_the_header_alone() {
    let squashed = squash(b"").unwrap();
    assert_eq!(squashed.len(), 17);
    assert_eq!(squashed, HEADER);
    assert_eq!(unsquash(&squashed), Ok(vec![]));
}

#[test]
fn banana_comes_back() {
    let squashed = squash(b"banana banana banana").unwrap();
    assert_eq!(&squashed[..17], &HEADER);
    let body_len = u32::from_le_bytes([squashed[17], squashed[18], squashed[19], squashed[20]]);
    assert_eq!(squashed.len(), 21 + body_len as usize);
    assert_eq!(unsquash(&squashed), Ok(b"banana banana banana".to_vec()));
}

#[test]
fn input_is_cut_into_blocks() {
    let input: Vec<u8> = (0..BLOCK_SIZE + 1000).map(|i| ((i / 64) % 7) as u8).collect();
    let squashed = squash(&input).unwrap();
    let first = u32::from_le_bytes([squashed[17], squashed[18], squashed[19], squashed[20]]) as usize;
    let at = 21 + first;
    let second =
        u32::from_le_bytes([squashed[at], squashed[at + 1], squashed[at + 2], squashed[at + 3]])
            as usize;
    assert_eq!(squashed.len(), at + 4 + second);
    assert_eq!(unsquash(&squashed), Ok(input));
}

#[test]
fn streams_that_are_no_stream() {
    let squashed = squash(b"banana").unwrap();
    assert_eq!(unsquash(&[]), Err(SquashError::Truncated));
    assert_eq!(unsquash(&squashed[..3]), Err(SquashError::Truncated));
    assert_eq!(unsquash(&squashed[..4]), Err(SquashError::Truncated));
    assert_eq!(unsquash(&squashed[..16]), Err(SquashError::Truncated));
    assert_eq!(unsquash(&squashed[..19]), Err(SquashError::Truncated));
    assert_eq!(unsquash(&squashed[..squashed.len() - 1]), Err(SquashError::Truncated));
    let mut other = squashed.clone();
    other[0] = 0;
    assert_eq!(unsquash(&other), Err(SquashError::BadMagic));
    let mut other = squashed.clone();
    other[4] = 2;
    assert_eq!(unsquash(&other), Err(SquashError::BadVersion));
    let mut other = squashed.clone();
    other[9] = 51;
    assert_eq!(unsquash(&other), Err(SquashError::BadParameters));
    let mut other = HEADER.to_vec();
    other.extend_from_slice(&[3, 0, 0, 0, 1, 2, 3]);
    assert_eq!(unsquash(&other), Err(SquashError::TooShort));
    let mut other = HEADER.to_vec();
    other.extend_from_slice(&[0, 0, 0, 0]);
    assert_eq!(unsquash(&other), Err(SquashError::TooShort));
}

#[test]
fn every_error_has_its_text() {
    assert_eq!(SquashError::TooShort.message(), "too short");
    assert_eq!(SquashError::Truncated.message(), "truncated stream");
    assert_eq!(SquashError::BadMagic.message(), "bad magic number");
    assert_eq!(SquashError::BadVersion.message(), "unsupported version");
    assert_eq!(SquashError::BadParameters.message(), "coder parameters differ");
    assert_eq!(SquashError::Corrupt.message(), "corrupt block");
    assert_eq!(SquashError::TooLong.message(), "too long");
    assert_eq!(SquashError::RangeExhausted.message(), "coder range exhausted");
}
