use squash::arithmetic::{pack_arithmetic, unpack_arithmetic, ArithmeticEncoder};
use squash::packer::{Packer, Unpacker};
use std::convert::TryFrom;

const TEXT: &str = "When you create a closure, Rust infers which \
    trait to use based on how the closure uses the values from the environment. All \
    closures implement FnOnce because they can all be called at least once. Closures \
    that don't move the captured variables also implement FnMut, and closures that \
    don't need mutable access to the captured variables also implement Fn. In Listing \
    13-12, the equal_to_x closure borrows x immutably (so equal_to_x has the Fn trait \
    ) because the body of the closure only needs to read the value in x.\n\
    If you want to force the closure to take ownership of the values it uses in the \
    environment, you can use the move keyword before the parameter list. This technique \
    is mostly useful when passing a closure to a new thread to move the data so it's \
    owned by the new thread.\n";

const LONG_TEXT: &str = "When you create a closure, Rust infers which \
     trait to use based on how the closure uses the values from the environment. All \
     closures implement FnOnce because they can all be called at least once. Closures \
     that don't move the captured variables also implement FnMut, and closures that \
     don't need mutable access to the captured variables also implement Fn. In Listing \
     13-12, the equal_to_x closure borrows x immutably (so equal_to_x has the Fn trait \
     ) because the body of the closure only needs to read the value in x.\n\
     If you want to force the closure to take ownership of the values it uses in the \
     environment, you can use the move keyword before the parameter list. This technique \
     is mostly useful when passing a closure to a new thread to move the data so it's \
     owned by the new thread.\n\
     We'll have more examples of move closures in Chapter 16 when we talk about concurrency. \
     For now, here's the code from Listing 13-12 with the move keyword added to the \
     closure definition and using vectors instead of integers, because integers can \
     be copied rather than moved; note that this code will not yet compile.";

#[test]
fn arithmetic_arithmetic_test() {
    let encoder = ArithmeticEncoder::default_encoder();
    let test = b"ddabdaddabccda";
    let alphabet_size = 4;
    let enc = encoder
        .pack(vec![], test, |a| u32::from(a - b"a"[0]), alphabet_size)
        .unwrap();
    let dec = encoder
        .unpack(
            &enc,
            |b| u8::try_from(b).unwrap() + b"a"[0],
            alphabet_size,
            test.len(),
        )
        .unwrap();
    assert_eq!(&test[..], &dec[..]);

    let test = b"qwertyqweyrtqwyeeewteyyrqwwerttqywetrtrrrrrrrrrrwert";
    let alphabet_size = 26;
    let enc = encoder
        .pack(vec![], test, |a| u32::from(a - b"a"[0]), alphabet_size)
        .unwrap();
    let dec = encoder
        .unpack(
            &enc,
            |b| u8::try_from(b).unwrap() + b"a"[0],
            alphabet_size,
            test.len(),
        )
        .unwrap();
    assert_eq!(&test[..], &dec[..]);

    let packed_text = encoder
        .pack(vec![], TEXT.as_bytes(), |a| u32::from(*a), 256)
        .unwrap();
    assert_eq!(
        String::from_utf8_lossy(
            &encoder
                .unpack(&packed_text, |b| u8::try_from(b).unwrap(), 256, TEXT.len())
                .unwrap()
        ),
        TEXT
    );
}

#[test]
fn arithmetic_packers_test() {
    let mut p = Packer::from_vec(vec![]);
    p.push(5, 5);
    p.push(7, 8);
    p.push(2, 2);
    let f = p.finish();
    let mut u = Unpacker::from_vec(&f);
    assert_eq!(u.pop(5), Some(5));
    assert_eq!(u.pop(8), Some(7));
    assert_eq!(u.pop(2), Some(2));
}

#[test]
fn test_packers_test() {
    let mut p = Packer::from_vec(vec![]);
    p.push(5, 5);
    p.push(7, 8);
    p.push(2, 2);
    let f = p.finish();
    let mut u = Unpacker::from_vec(&f);
    assert_eq!(u.pop(5), Some(5));
    assert_eq!(u.pop(8), Some(7));
    assert_eq!(u.pop(2), Some(2));
}

// The byte values expected here belong to a coder with a padding of 100 that
// rebuilds its table before every code.
#[test]
fn test_arithmetic_test() {
    let encoder = ArithmeticEncoder {
        frequency_memory: 10_000,
        frequency_padding: 100,
        recalculation_frequency: 0,
    };
    assert_eq!(
        encoder
            .pack(vec![], b"ddabdaddabccda", |a| { u32::from(a - b"a"[0]) }, 4)
            .unwrap(),
        &[143, 13, 36, 9]
    );
    assert_eq!(
        encoder
            .pack(vec![], b"abbadabbadc", |a| { u32::from(a - b"a"[0]) }, 4)
            .unwrap(),
        &[40, 23, 40]
    );
    assert_eq!(
        &encoder
            .unpack(
                &[143, 13, 36, 9],
                |b| { u8::try_from(b).unwrap() + b"a"[0] },
                4,
                14
            )
            .unwrap()[..],
        &b"ddabdaddabccda"[..]
    );
    assert_eq!(
        &encoder
            .unpack(
                &[40, 23, 40],
                |b| { u8::try_from(b).unwrap() + b"a"[0] },
                4,
                11
            )
            .unwrap()[..],
        &b"abbadabbadc"[..]
    );
    let packed_text = pack_arithmetic(vec![], LONG_TEXT.as_bytes(), |a| u32::from(*a), 256).unwrap();
    assert_eq!(
        String::from_utf8_lossy(
            &unpack_arithmetic(
                &packed_text,
                |b| u8::try_from(b).unwrap(),
                256,
                LONG_TEXT.len()
            )
            .unwrap()
        ),
        LONG_TEXT
    );
}

#[test]
fn default_parameters() {
    let encoder = ArithmeticEncoder::default_encoder();
    assert_eq!(encoder.frequency_memory, 10_000);
    assert_eq!(encoder.frequency_padding, 50);
    assert_eq!(encoder.recalculation_frequency, 50);
    assert_eq!(
        encoder.write_config(),
        vec![0x10, 0x27, 0, 0, 0x32, 0, 0, 0, 0x32, 0, 0, 0]
    );
    assert_eq!(ArithmeticEncoder::read_config(&encoder.write_config()), Some(encoder));
    assert_eq!(ArithmeticEncoder::read_config(&[1, 2, 3]), None);
    let other = ArithmeticEncoder::read_config(&[1, 0, 0, 0, 0, 1, 0, 0, 0, 0, 1, 0, 9, 9]).unwrap();
    assert_eq!(other.frequency_memory, 1);
    assert_eq!(other.frequency_padding, 256);
    assert_eq!(other.recalculation_frequency, 65536);
}

#[test]
fn packing_with_default_parameters_is_exact() {
    let encoder = ArithmeticEncoder::default_encoder();
    let codes: Vec<u32> = b"ddabdaddabccda".iter().map(|c| u32::from(c - b'a')).collect();
    assert_eq!(encoder.pack_codes(vec![], &codes, 4), Some(vec![143, 243, 88, 3]));
    assert_eq!(encoder.pack_codes(vec![7, 8], &codes, 4), Some(vec![7, 8, 143, 243, 88, 3]));
    assert_eq!(encoder.unpack_codes(&[143, 243, 88, 3], 4, 14), Some(codes));
    let codes: Vec<u32> = b"abbadabbadc".iter().map(|c| u32::from(c - b'a')).collect();
    assert_eq!(encoder.pack_codes(vec![], &codes, 4), Some(vec![40, 163, 28]));
    assert_eq!(encoder.unpack_codes(&[40, 163, 28], 4, 11), Some(codes));
}

#[test]
fn packing_nothing_writes_the_closing_bit() {
    let encoder = ArithmeticEncoder::default_encoder();
    assert_eq!(encoder.pack_codes(vec![], &[], 4), Some(vec![1]));
    assert_eq!(encoder.pack_codes(vec![9], &[], 0), Some(vec![9, 1]));
    assert_eq!(encoder.unpack_codes(&[1], 4, 0), Some(vec![]));
}

#[test]
fn interval_too_narrow_to_split() {
    let encoder = ArithmeticEncoder::default_encoder();
    let mut codes: Vec<u32> = vec![1];
    for _ in 0..28 {
        codes.push(0);
    }
    let packed = encoder.pack_codes(vec![], &codes, 4).unwrap();
    assert_eq!(encoder.unpack_codes(&packed, 4, codes.len()), Some(codes.clone()));
    codes.push(0);
    assert_eq!(encoder.pack_codes(vec![], &codes, 4), None);
}

#[test]
fn unpacking_what_was_never_packed() {
    let encoder = ArithmeticEncoder::default_encoder();
    // no frequencies at all: nothing to split the interval by
    assert_eq!(encoder.unpack_codes(&[1, 2, 3], 0, 1), None);
    let nothing = ArithmeticEncoder {
        frequency_memory: 10,
        frequency_padding: 0,
        recalculation_frequency: 1,
    };
    assert_eq!(nothing.pack_codes(vec![], &[0], 2), None);
    assert_eq!(nothing.unpack_codes(&[255], 2, 1), None);
    // reading past the end of the buffer yields zero bits
    assert_eq!(encoder.unpack_codes(&[], 4, 3), Some(vec![0, 0, 0]));
}

#[test]
fn table_is_rebuilt_on_schedule() {
    // a memory of two codes, a table rebuilt at every second code
    let encoder = ArithmeticEncoder {
        frequency_memory: 2,
        frequency_padding: 1,
        recalculation_frequency: 2,
    };
    let codes: Vec<u32> = vec![0, 0, 1, 1, 0, 1, 1, 1, 0, 0, 0, 1];
    let packed = encoder.pack_codes(vec![], &codes, 2).unwrap();
    assert_eq!(encoder.unpack_codes(&packed, 2, codes.len()), Some(codes));
}

#[test]
fn bits_are_packed_from_the_low_end() {
    let mut p = Packer::from_vec(vec![0xaa]);
    p.push(1, 1);
    p.push(0, 1);
    p.push(0b101, 3);
    p.push(0xff, 0);
    assert_eq!(p.finish(), vec![0xaa, 0b10101]);
    let mut p = Packer::from_vec(vec![]);
    p.push(0xff, 8);
    p.push(0b1, 1);
    assert_eq!(p.finish(), vec![0xff, 1]);
    let p = Packer::from_vec(vec![3]);
    assert_eq!(p.finish(), vec![3]);
}

#[test]
fn reading_past_the_end_gives_nothing() {
    let data = [0b1010_0101u8, 0x0f];
    let mut u = Unpacker::from_vec(&data);
    assert_eq!(u.pop(4), Some(0b0101));
    assert_eq!(u.pop(0), Some(0));
    assert_eq!(u.pop(8), Some(0b1111_1010));
    assert_eq!(u.pop(5), None);
    assert_eq!(u.pop(1), None);
    assert_eq!(u.pop(0), Some(0));
}

#[test]
fn packed_length_is_bounded() {
    let encoder = ArithmeticEncoder::default_encoder();
    let inputs: Vec<Vec<u32>> = vec![
        vec![],
        vec![3],
        vec![0; 500],
        vec![256; 500],
        (0..2000u32).map(|i| (i * i + 7 * i) % 257).collect(),
    ];
    for codes in inputs {
        let packed = encoder.pack_codes(vec![1, 2, 3], &codes, 257).unwrap();
        assert_eq!(&packed[..3], &[1, 2, 3]);
        assert!(packed.len() > 3);
        assert!(packed.len() <= 3 + 8 * codes.len() + 1);
        assert_eq!(encoder.unpack_codes(&packed[3..], 257, codes.len()), Some(codes));
    }
}
