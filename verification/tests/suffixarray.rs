use squash::suffixarray::SuffixArray;

const SA_BANANA: &str = "SUFFIX ARRAY FOR banana banana banana:\n0:\t\'\'\n1:\t\' \
     banana\'\n2:\t\' banana banana\'\n3:\t\'a\'\n4:\t\'a banana\'\n5:\t\'a banana \
     banana\'\n6:\t\'ana\'\n7:\t\'ana banana\'\n8:\t\'ana banana banana\'\n9:\t\'\
     anana\'\n10:\t\'anana banana\'\n11:\t\'anana banana banana\'\n12:\t\'banana\'\n\
     13:\t\'banana banana\'\n14:\t\'banana banana banana\'\n15:\t\'na\'\n16:\t\'\
     na banana\'\n17:\t\'na banana banana\'\n18:\t\'nana\'\n19:\t\'nana banana\'\n\
     20:\t\'nana banana banana\'\n";

fn naive(text: &[u8]) -> Vec<usize> {
    let mut array: Vec<usize> = (0..=text.len()).collect();
    array.sort_by(|a, b| text[*a..].cmp(&text[*b..]));
    array
}

fn fmt(text: &[u8], array: &[usize]) -> String {
    let mut out = String::new();
    out += &format!("SUFFIX ARRAY FOR {}:\n", String::from_utf8_lossy(text));
    for (i, line) in array.iter().enumerate() {
        out += &format!("{}:\t'{}'\n", i, String::from_utf8_lossy(&text[*line..]));
    }
    out
}

#[test]
fn suffixarray_suffix_array_test() {
    let test = b"banana banana banana";
    let sa1 = SuffixArray::from_array(test);
    assert_eq!(fmt(test, &sa1.raw()), SA_BANANA);
}

#[test]
fn test_suffix_array_test() {
    let test = b"banana banana banana";
    let sa1 = SuffixArray::from_array(test);
    let sa2 = naive(test);
    let (one, two) = (fmt(test, &sa1.raw()), fmt(test, &sa2));
    println!("{}\n{}", one, two);
    assert_eq!(one, two);
}

#[test]
fn suffix_arrays_of_small_texts() {
    assert_eq!(SuffixArray::from_array(b"").raw(), vec![0]);
    assert_eq!(SuffixArray::from_array(b"a").raw(), vec![1, 0]);
    assert_eq!(SuffixArray::from_array(b"ab").raw(), vec![2, 0, 1]);
    assert_eq!(SuffixArray::from_array(b"ba").raw(), vec![2, 1, 0]);
    assert_eq!(SuffixArray::from_array(b"aa").raw(), vec![2, 1, 0]);
    assert_eq!(SuffixArray::from_array(b"banana").raw(), vec![6, 5, 3, 1, 0, 4, 2]);
}

#[test]
fn suffix_arrays_agree_with_plain_sorting() {
    for len in 0..70usize {
        let text: Vec<u8> = (0..len).map(|i| ((i * i + i / 4) % 3) as u8).collect();
        assert_eq!(SuffixArray::from_array(&text).raw(), naive(&text));
    }
    let text = vec![0u8; 300];
    assert_eq!(SuffixArray::from_array(&text).raw(), naive(&text));
    let text: Vec<u8> = (0..1000usize).map(|i| (i % 256) as u8).collect();
    assert_eq!(SuffixArray::from_array(&text).raw(), naive(&text));
}
