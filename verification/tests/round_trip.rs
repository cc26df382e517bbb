use lzw::{compress, decompress, to_bytes, to_u32};

fn pseudo_text(len: usize, seed: u64) -> Vec<u8> {
    let letters = "etaoinshrdlucmfwypvbgkjqxz".as_bytes();
    let mut state: u64 = seed;
    let mut text: Vec<u8> = Vec::with_capacity(len);
    let mut left_in_word: u64 = 0;
    while text.len() < len {
        state = state
            .wrapping_mul(6364136223846793005)
            .wrapping_add(1442695040888963407);
        let draw: u64 = state >> 33;
        if left_in_word == 0 {
            text.push(b' ');
            left_in_word = 1 + draw % 9;
        } else {
            text.push(letters[(draw % 26) as usize]);
            left_in_word -= 1;
        }
    }
    text
}

#[test]
fn short_inputs_round_trip() {
    let inputs: Vec<&str> = vec![
        "",
        "a",
        "ab",
        "aa",
        "aaa",
        "abababababababab",
        "ABCDEFG",
        "AAAABBBB",
        "TOBEORNOTTOBEORTOBEORNOT",
        "itty bitty bit bin",
    ];
    for input in inputs {
        let codes = compress(input.as_bytes());
        assert_eq!(decompress(&codes), Ok(input.as_bytes().to_vec()));
    }
}

#[test]
fn every_byte_value_round_trips() {
    let mut data: Vec<u8> = Vec::new();
    for round in 0u32..4 {
        for value in 0u32..256 {
            data.push(((value * (round + 1)) % 256) as u8);
        }
    }
    let codes = compress(&data);
    assert_eq!(decompress(&codes), Ok(data));
}

#[test]
fn long_run_of_one_byte_round_trips() {
    let data: Vec<u8> = vec![b'z'; 100_000];
    let codes = compress(&data);
    assert!(codes.len() < 1000);
    assert_eq!(decompress(&codes), Ok(data));
}

#[test]
fn same_input_gives_same_output() {
    let data = pseudo_text(5_000, 7);
    let first = compress(&data);
    let second = compress(&data);
    assert_eq!(first, second);
    assert_eq!(decompress(&first), decompress(&second));
}

#[test]
fn new_codes_appear_in_increasing_order() {
    let data = pseudo_text(20_000, 11);
    let codes = compress(&data);
    let mut highest: u32 = 255;
    for (position, code) in codes.iter().enumerate() {
        assert!((*code as usize) < 256 + position);
        if *code > highest {
            highest = *code;
        }
    }
    assert!(highest >= 256);
    assert!((highest as usize) < 256 + codes.len());
}

#[test]
fn large_text_round_trips_past_sixteen_bit_codes() {
    let data = pseudo_text(400_000, 2024);
    let codes = compress(&data);
    assert!(codes.iter().any(|code| *code > 0xFFFF));
    assert!(codes.len() < data.len());
    let packed = to_bytes(&codes);
    assert_eq!(packed.len(), 4 * codes.len());
    let unpacked = decompress(&to_u32(&packed)).expect("Invalid compressed data");
    assert_eq!(unpacked, data);
}
