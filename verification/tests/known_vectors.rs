use lzw::{compress, decompress};

#[test]
fn test_compress_base1() {
    let data = "TOBEORNOTTOBEORTOBEORNOT";
    let data = data.as_bytes();
    let compressed = compress(data);
    assert_eq!(
        compressed,
        vec![84, 79, 66, 69, 79, 82, 78, 79, 84, 256, 258, 260, 265, 259, 261, 263]
    );
}

#[test]
fn test_decompress_base1() {
    let compressed = vec![
        84, 79, 66, 69, 79, 82, 78, 79, 84, 256, 258, 260, 265, 259, 261, 263,
    ];
    let decompressed = decompress(&compressed).expect("Invalid compressed data");
    let decompressed = String::from_utf8(decompressed).unwrap();
    assert_eq!(decompressed, "TOBEORNOTTOBEORTOBEORNOT");
}

#[test]
fn test_base2() {
    let data = "itty bitty bit bin";
    let compressed = compress(data.as_bytes());
    let decompressed =
        String::from_utf8(decompress(&compressed).expect("Invalid compressed data")).unwrap();
    assert!(decompressed == data);
}

#[test]
fn test_base3() {
    let data = "AAAABBBB";
    let compressed = compress(data.as_bytes());
    let decompressed =
        String::from_utf8(decompress(&compressed).expect("Invalid compressed data")).unwrap();
    assert!(decompressed == data);
}

#[test]
fn empty_input_gives_no_codes() {
    let compressed = compress(&[]);
    assert_eq!(compressed, Vec::<u32>::new());
}

#[test]
fn no_codes_give_empty_output() {
    assert_eq!(decompress(&[]), Ok(Vec::<u8>::new()));
}

#[test]
fn single_byte_is_its_own_code() {
    for value in 0u16..256 {
        let byte = value as u8;
        assert_eq!(compress(&[byte]), vec![value as u32]);
        assert_eq!(decompress(&[value as u32]), Ok(vec![byte]));
    }
}

#[test]
fn distinct_bytes_give_one_code_each() {
    let compressed = compress("ABCDEFG".as_bytes());
    assert_eq!(compressed, vec![65, 66, 67, 68, 69, 70, 71]);
    assert_eq!(decompress(&compressed), Ok("ABCDEFG".as_bytes().to_vec()));
}

#[test]
fn repeated_bytes_use_the_entry_just_made() {
    let compressed = compress("AAAABBBB".as_bytes());
    assert_eq!(compressed, vec![65, 256, 65, 66, 259, 66]);
}

#[test]
fn itty_bitty_codes() {
    let compressed = compress("itty bitty bit bin".as_bytes());
    assert_eq!(
        compressed,
        vec![105, 116, 116, 121, 32, 98, 256, 258, 260, 256, 264, 110]
    );
}

#[test]
fn two_equal_bytes_are_two_codes() {
    assert_eq!(compress(&[7, 7]), vec![7, 7]);
    assert_eq!(compress(&[7, 7, 7]), vec![7, 256]);
    assert_eq!(decompress(&[7, 256]), Ok(vec![7, 7, 7]));
}

#[test]
fn next_code_stands_for_previous_string_and_its_first_byte() {
    assert_eq!(decompress(&[65, 256]), Ok("AAA".as_bytes().to_vec()));
    assert_eq!(decompress(&[65, 256, 257]), Ok("AAAAAA".as_bytes().to_vec()));
    assert_eq!(decompress(&[65, 66, 257]), Ok("ABBB".as_bytes().to_vec()));
    assert_eq!(decompress(&[65, 66, 256, 258]), Ok("ABABABA".as_bytes().to_vec()));
}

#[test]
fn decoder_entries_follow_the_rule_for_any_accepted_codes() {
    // 256 = "AB", 257 = "BA", 258 = "AA"
    assert_eq!(
        decompress(&[65, 66, 65, 65, 256, 257, 258]),
        Ok("ABAAABBAAA".as_bytes().to_vec())
    );
}
