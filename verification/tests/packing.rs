use lzw::{compress, decompress, to_bytes, to_u32};

#[test]
fn codes_become_four_bytes_most_significant_first() {
    let codes: Vec<u32> = vec![1, 256, 0x0102_0304, u32::MAX, 0];
    assert_eq!(
        to_bytes(&codes),
        vec![0, 0, 0, 1, 0, 0, 1, 0, 1, 2, 3, 4, 255, 255, 255, 255, 0, 0, 0, 0]
    );
}

#[test]
fn four_bytes_become_one_code() {
    let bytes: Vec<u8> = vec![0, 0, 1, 4, 0xde, 0xad, 0xbe, 0xef];
    assert_eq!(to_u32(&bytes), vec![260, 0xdead_beef]);
}

#[test]
fn nothing_packs_to_nothing() {
    assert_eq!(to_bytes(&Vec::new()), Vec::<u8>::new());
    assert_eq!(to_u32(&Vec::new()), Vec::<u32>::new());
}

#[test]
fn unpacking_undoes_packing() {
    let codes: Vec<u32> = vec![
        84, 79, 66, 69, 79, 82, 78, 79, 84, 256, 258, 260, 265, 259, 261, 263,
    ];
    let bytes = to_bytes(&codes);
    assert_eq!(bytes.len(), 64);
    assert_eq!(to_u32(&bytes), codes);
    assert_eq!(to_bytes(&to_u32(&bytes)), bytes);
}

#[test]
fn text_survives_the_whole_pipeline() {
    let text = "the quick brown fox jumps over the lazy dog, the quick brown fox";
    let packed = to_bytes(&compress(text.as_bytes()));
    let unpacked = decompress(&to_u32(&packed)).expect("Invalid compressed data");
    assert_eq!(unpacked, text.as_bytes());
}
