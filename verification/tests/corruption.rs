use lzw::{compress, decompress, InvalidCode};

#[test]
fn first_code_must_be_a_byte() {
    assert_eq!(decompress(&[256]), Err(InvalidCode { position: 0, code: 256 }));
    assert_eq!(decompress(&[1000, 65]), Err(InvalidCode { position: 0, code: 1000 }));
    assert_eq!(decompress(&[255]), Ok(vec![255]));
}

#[test]
fn code_beyond_the_next_one_is_rejected() {
    assert_eq!(decompress(&[65, 257]), Err(InvalidCode { position: 1, code: 257 }));
    assert_eq!(decompress(&[65, 256, 258]), Err(InvalidCode { position: 2, code: 258 }));
    assert_eq!(decompress(&[65, 66, 1000]), Err(InvalidCode { position: 2, code: 1000 }));
    assert_eq!(
        decompress(&[65, u32::MAX]),
        Err(InvalidCode { position: 1, code: u32::MAX })
    );
}

#[test]
fn next_code_is_accepted_at_every_position_but_the_first() {
    assert!(decompress(&[65, 256]).is_ok());
    assert!(decompress(&[65, 256, 257]).is_ok());
    assert!(decompress(&[65, 66, 67, 258]).is_ok());
    assert!(decompress(&[65, 66, 67, 259]).is_err());
}

#[test]
fn first_bad_code_is_the_one_reported() {
    assert_eq!(
        decompress(&[65, 66, 300, 5000, 67]),
        Err(InvalidCode { position: 2, code: 300 })
    );
}

#[test]
fn damaged_output_of_the_encoder_is_rejected() {
    let mut codes = compress("TOBEORNOTTOBEORTOBEORNOT".as_bytes());
    codes[9] = 500;
    assert_eq!(decompress(&codes), Err(InvalidCode { position: 9, code: 500 }));
}

#[test]
fn encoder_output_stays_within_the_bound_of_each_position() {
    let codes = compress("abracadabra abracadabra abracadabra".as_bytes());
    for (position, code) in codes.iter().enumerate() {
        assert!((*code as usize) < 256 + position);
    }
}
