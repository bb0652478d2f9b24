use bin_encode_decode::{Decode, Encode};

const CHARSET: &str = "abcdefghijklmnopqrstuvwxyzABCDEFGHIJKLMNOPQRSTUVWXYZ0123456789_=~";

#[test]
fn full_groups_of_text_round_trip() {
    let encoded = Encode::execute(CHARSET, b"foobar").unwrap();
    assert_eq!(encoded, "zM9VyMfY");
    assert_eq!(Decode::execute(CHARSET, &encoded), Ok("foobar".to_string()));
}

#[test]
fn full_groups_of_multi_byte_text_round_trip() {
    let payload = "héllo, wörld!🦀…ab";
    assert_eq!(payload.len() % 3, 0);
    let encoded = Encode::execute(CHARSET, payload.as_bytes()).unwrap();
    assert_eq!(Decode::execute(CHARSET, &encoded), Ok(payload.to_string()));
}

#[test]
fn every_length_of_full_groups_round_trips() {
    let source: String = "The quick brown fox jumps over the lazy dog. ".repeat(8);
    let mut len: usize = 0;
    while len <= source.len() {
        let payload = &source[..len];
        let encoded = Encode::execute(CHARSET, payload.as_bytes()).unwrap();
        assert_eq!(Decode::execute(CHARSET, &encoded), Ok(payload.to_string()));
        len += 3;
    }
}

#[test]
fn full_groups_with_a_zero_byte_lose_it() {
    let encoded = Encode::execute(CHARSET, &[0x41, 0x00, 0x42]).unwrap();
    assert_eq!(encoded, "qqbc");
    assert_eq!(Decode::execute(CHARSET, &encoded), Ok("AB".to_string()));
}

#[test]
fn full_groups_that_are_not_text_come_back_empty() {
    let encoded = Encode::execute(CHARSET, &[0xff, 0xff, 0xff]).unwrap();
    assert_eq!(encoded, "====");
    assert_eq!(Decode::execute(CHARSET, &encoded), Ok(String::new()));
}

#[test]
fn full_groups_come_back_as_bytes() {
    let payload: Vec<u8> = (0..=254u8).collect();
    let encoded = Encode::execute(CHARSET, &payload).unwrap();
    let symbols: Vec<char> = CHARSET.chars().collect();
    assert_eq!(Decode::unpack_text(&symbols, &encoded), (payload, 0));
}

#[test]
fn padded_group_decodes_its_pad_as_a_position() {
    // The pad stands at position 64 of the charset, and the decoder reads
    // it as that position.
    let encoded = Encode::execute(CHARSET, b"Many").unwrap();
    assert_eq!(encoded, "twfUEq~~");
    let symbols: Vec<char> = CHARSET.chars().collect();
    assert_eq!(Decode::unpack_text(&symbols, &encoded).0, vec![77, 97, 110, 121, 16, 64]);
}

#[test]
fn padded_group_is_dropped_by_a_charset_without_the_pad() {
    let encoded = Encode::execute(CHARSET, b"Many").unwrap();
    let data_only = &CHARSET[..64];
    assert_eq!(Decode::execute(data_only, &encoded), Ok("Man".to_string()));
}
