use squash::bijective::Bijective::{A, B};
use squash::bijective::{from_bijective, to_bijective, Bijective};
use squash::bwt::{bw_transform, bw_untransform, try_bw_untransform, BwVec};
use squash::mtf::{mtf_transform, mtf_untransform};
use squash::rle::{run_length_decode, run_length_encode, runs_decodable, RunEncoded};

#[test]
fn transforms_bwt_test() {
    let test = b"banana_banana";
    let enc = bw_transform(test);
    assert_eq!(bw_untransform(&enc), test);

    let test = b"banana_banana$";
    let enc = bw_transform(test);
    assert_eq!(bw_untransform(&enc), test);

    let test = b"blooby blabby blam. man manam malamla. blom blooby blop.";
    let enc = bw_transform(test);
    assert_eq!(
        String::from_utf8_lossy(&bw_untransform(&enc)),
        String::from_utf8_lossy(test)
    );

    let test = b"abcdabcdefghefgh";
    let enc = bw_transform(test);
    assert_eq!(bw_untransform(&enc), test);

    let test = b"toblerone bars";
    let enc = bw_transform(test);
    assert_eq!(bw_untransform(&enc), test);
}

#[test]
fn test_bwt_test() {
    let test = b"banana_banana$";
    let enc = bw_transform(test);
    assert_eq!(bw_untransform(&enc), test);

    let test = b"blooby blabby blam. man manam malamla. blom blooby blop.";
    let enc = bw_transform(test);
    assert_eq!(
        String::from_utf8_lossy(&bw_untransform(&enc)),
        String::from_utf8_lossy(test)
    );

    let test = b"abcdabcdefghefgh";
    let enc = bw_transform(test);
    assert_eq!(bw_untransform(&enc), test);

    let test = b"toblerone bars";
    let enc = bw_transform(test);
    assert_eq!(bw_untransform(&enc), test);
}

#[test]
fn transforms_mtf_test() {
    let test = b"aaaaabbbbbcccccddddd";
    let enc = mtf_transform(test);
    assert_eq!(mtf_untransform(&enc), test);

    let test = b"syllogism";
    let enc = mtf_transform(test);
    assert_eq!(mtf_untransform(&enc), test);

    assert_eq!(mtf_transform(&[]), &[]);
    assert_eq!(mtf_untransform(&[]), &[]);
}

#[test]
fn test_mtf_test() {
    let test = b"aaaaabbbbbcccccddddd";
    let enc = mtf_transform(test);
    assert_eq!(mtf_untransform(&enc), test);

    let test = b"syllogism";
    let enc = mtf_transform(test);
    assert_eq!(mtf_untransform(&enc), test);

    assert_eq!(mtf_transform(&[]), &[]);
    assert_eq!(mtf_untransform(&[]), &[]);
}

#[test]
fn transforms_rle_test() {
    let test = b"bbfdddeejreewwwer";
    let enc = run_length_encode(test);
    assert_eq!(run_length_decode(&enc), test);
    assert_eq!(run_length_encode(b""), []);
}

#[test]
fn test_rle_test() {
    let test = b"bbfdddeejreewwwer";
    let enc = run_length_encode(test);
    assert_eq!(run_length_decode(&enc), test);
    assert_eq!(run_length_encode(b""), []);
}

#[test]
fn run_encode_test() {
    let test = 6;
    let enc = to_bijective(test);
    assert_eq!(from_bijective(&enc), test);

    let test = 7;
    let enc = to_bijective(test);
    assert_eq!(from_bijective(&enc), test);

    let test = 23;
    let enc = to_bijective(test);
    assert_eq!(from_bijective(&enc), test);

    let test = 1;
    let enc = to_bijective(test);
    assert_eq!(from_bijective(&enc), test);
}

#[test]
fn bijective_numerals_in_order() {
    assert_eq!(to_bijective(1), vec![A]);
    assert_eq!(to_bijective(2), vec![B]);
    assert_eq!(to_bijective(3), vec![A, A]);
    assert_eq!(to_bijective(4), vec![B, A]);
    assert_eq!(to_bijective(5), vec![A, B]);
    assert_eq!(to_bijective(6), vec![B, B]);
    assert_eq!(to_bijective(7), vec![A, A, A]);
    assert_eq!(to_bijective(9), vec![A, B, A]);
    assert_eq!(from_bijective(&[]), 0);
    assert_eq!(from_bijective(&[B, A]), 4);
    assert_eq!(from_bijective(&[A, B, A]), 9);
}

#[test]
fn bijective_numerals_at_the_limits() {
    assert_eq!(to_bijective(0xffff_ffff), vec![A; 32]);
    assert_eq!(from_bijective(&vec![A; 32]), 0xffff_ffff);
    assert_eq!(to_bijective(0xffff_fffe), vec![B; 31]);
    assert_eq!(from_bijective(&vec![B; 31]), 0xffff_fffe);
    assert_eq!(to_bijective(0x7fff_ffff), vec![A; 31]);
    assert_eq!(from_bijective(&vec![A; 31]), 0x7fff_ffff);
    // every numeral of 32 digits is read as the largest number
    let mut other = vec![A; 31];
    other.push(B);
    assert_eq!(from_bijective(&other), 0xffff_ffff);
    for n in 1..2000u32 {
        assert_eq!(from_bijective(&to_bijective(n)), n);
    }
}

#[test]
fn bwt_of_a_known_block() {
    let test = b"abcdabcdefghefgh";
    let enc = bw_transform(test);
    assert_eq!(enc.block.len(), 17);
    assert_eq!(enc.block[0], b'h');
    assert_eq!(enc.end_index, 1);
    assert_eq!(enc.block[1], 0x24);
    assert_eq!(bw_untransform(&enc), test);

    let enc = bw_transform(b"banana");
    assert_eq!(enc.block, b"annb$aa");
    assert_eq!(enc.end_index, 4);
    assert_eq!(bw_untransform(&enc), b"banana");
}

#[test]
fn bwt_edge_cases() {
    let enc = bw_transform(b"");
    assert_eq!(enc, BwVec { block: vec![], end_index: 0 });
    assert_eq!(bw_untransform(&enc), b"");
    let enc = bw_transform(b"x");
    assert_eq!(enc.block.len(), 2);
    assert_eq!(enc, BwVec { block: vec![b'x', 0x24], end_index: 1 });
    assert_eq!(bw_untransform(&enc), b"x");
    for len in 0..40usize {
        let test: Vec<u8> = (0..len).map(|i| ((i * 7 + i / 3) % 5) as u8).collect();
        let enc = bw_transform(&test);
        if len > 0 {
            assert_eq!(enc.block.len(), len + 1);
            assert!((enc.end_index as usize) < enc.block.len());
        }
        assert_eq!(try_bw_untransform(&enc), Some(test));
    }
}

#[test]
fn bwt_columns_that_are_no_transform() {
    // the row of the filler lies outside the column
    assert_eq!(try_bw_untransform(&BwVec { block: vec![1, 2], end_index: 2 }), None);
    // the walk from row 0 meets the filler before the block is complete
    assert_eq!(try_bw_untransform(&BwVec { block: vec![0, 9, 0], end_index: 0 }), None);
    assert_eq!(
        try_bw_untransform(&BwVec { block: vec![], end_index: 5 }),
        Some(vec![])
    );
}

#[test]
fn mtf_of_known_bytes() {
    assert_eq!(
        mtf_transform(b"aaaaabbbbbcccccddddd"),
        vec![158, 255, 255, 255, 255, 157, 255, 255, 255, 255, 156, 255, 255, 255, 255, 155, 255, 255, 255, 255]
    );
    assert_eq!(mtf_transform(&[0, 0, 1, 0]), vec![255, 255, 254, 254]);
    assert_eq!(mtf_untransform(&[255, 255, 254, 254]), vec![0, 0, 1, 0]);
    let all: Vec<u8> = (0..=255u8).rev().chain(0..=255u8).collect();
    assert_eq!(mtf_untransform(&mtf_transform(&all)), all);
}

#[test]
fn rle_of_zero_runs() {
    let enc = run_length_encode(b"\x00\x00\x00");
    assert_eq!(
        enc,
        vec![RunEncoded::ZeroRun(A), RunEncoded::ZeroRun(A)]
    );
    let digits: Vec<Bijective> = enc
        .iter()
        .map(|x| match x {
            RunEncoded::ZeroRun(d) => *d,
            RunEncoded::Byte(_) => panic!("a byte among the digits"),
        })
        .collect();
    assert_eq!(from_bijective(&digits), 3);
    assert_eq!(run_length_decode(&enc), vec![0, 0, 0]);
    assert_eq!(
        run_length_encode(&[5, 0, 0, 0, 0, 7, 0]),
        vec![
            RunEncoded::Byte(5),
            RunEncoded::ZeroRun(B),
            RunEncoded::ZeroRun(A),
            RunEncoded::Byte(7),
            RunEncoded::ZeroRun(A)
        ]
    );
    let test: Vec<u8> = vec![0, 0, 0, 0, 0, 0, 0, 3, 0, 0, 1, 1, 0];
    assert_eq!(run_length_decode(&run_length_encode(&test)), test);
}

#[test]
fn rle_runs_of_digits_that_are_too_long() {
    let fits = vec![RunEncoded::ZeroRun(Bijective::A); 5];
    assert!(runs_decodable(&fits));
    let mut long = vec![RunEncoded::Byte(1)];
    long.extend(vec![RunEncoded::ZeroRun(Bijective::B); 33]);
    long.push(RunEncoded::Byte(2));
    assert!(!runs_decodable(&long));
    let mut split = vec![RunEncoded::ZeroRun(Bijective::B); 20];
    split.push(RunEncoded::Byte(2));
    split.extend(vec![RunEncoded::ZeroRun(Bijective::B); 20]);
    assert!(runs_decodable(&split));
    assert!(runs_decodable(&[]));
}

#[test]
fn numerals_come_back_from_their_numbers() {
    let numerals: Vec<Vec<Bijective>> = vec![
        vec![A],
        vec![B],
        vec![A, B],
        vec![B, B, A, B, A, A, B],
        vec![B; 31],
        vec![A; 32],
    ];
    for numeral in numerals {
        assert_eq!(to_bijective(from_bijective(&numeral)), numeral);
    }
    // a numeral of 32 digits with a `B` in it denotes more than 32 bits hold
    let mut beyond = vec![A; 31];
    beyond.push(B);
    assert_eq!(to_bijective(from_bijective(&beyond)), vec![A; 32]);
}
