use bin_encode_decode::{Encode, EncodeError};

const BASE64: &str = "ABCDEFGHIJKLMNOPQRSTUVWXYZabcdefghijklmnopqrstuvwxyz0123456789+/=";
const DATA_ONLY: &str = "ABCDEFGHIJKLMNOPQRSTUVWXYZabcdefghijklmnopqrstuvwxyz0123456789+/";

#[test]
fn full_group_becomes_four_data_symbols() {
    assert_eq!(Encode::execute(BASE64, b"Man"), Ok("TWFu".to_string()));
}

#[test]
fn final_group_of_two_bytes_gets_one_pad() {
    assert_eq!(Encode::execute(BASE64, b"Ma"), Ok("TWE=".to_string()));
}

#[test]
fn final_group_of_one_byte_gets_two_pads() {
    assert_eq!(Encode::execute(BASE64, b"M"), Ok("TQ==".to_string()));
}

#[test]
fn empty_payload_encodes_to_empty_text() {
    assert_eq!(Encode::execute(BASE64, b""), Ok(String::new()));
}

#[test]
fn longer_payloads_are_encoded_group_by_group() {
    assert_eq!(Encode::execute(BASE64, b"light work."), Ok("bGlnaHQgd29yay4=".to_string()));
    assert_eq!(Encode::execute(BASE64, b"light work"), Ok("bGlnaHQgd29yaw==".to_string()));
    assert_eq!(Encode::execute(BASE64, b"light wor"), Ok("bGlnaHQgd29y".to_string()));
}

#[test]
fn bytes_of_any_value_are_encoded() {
    assert_eq!(Encode::execute(BASE64, &[0xff, 0xfe, 0xfd, 0x00]), Ok("//79AA==".to_string()));
    assert_eq!(Encode::execute(BASE64, &[0, 0, 0]), Ok("AAAA".to_string()));
}

#[test]
fn encoding_length_is_a_multiple_of_four() {
    let payload: Vec<u8> = (1..=200u8).collect();
    let mut len: usize = 0;
    while len <= payload.len() {
        let text = Encode::execute(BASE64, &payload[..len]).unwrap();
        assert_eq!(text.chars().count(), (len + 2) / 3 * 4);
        assert!(text.chars().all(|c| BASE64.contains(c)));
        len += 1;
    }
}

#[test]
fn pad_is_the_last_character_of_a_longer_charset() {
    let charset = format!("{}-_.~", DATA_ONLY);
    assert_eq!(Encode::execute(&charset, b"M"), Ok("TQ~~".to_string()));
    assert_eq!(Encode::execute(&charset, b"Ma"), Ok("TWE~".to_string()));
    assert_eq!(Encode::execute(&charset, b"Man"), Ok("TWFu".to_string()));
}

#[test]
fn wide_characters_serve_as_symbols() {
    let mut charset = String::new();
    let mut code: u32 = 0x4e00;
    while code < 0x4e00 + 64 {
        charset.push(char::from_u32(code).unwrap());
        code += 1;
    }
    charset.push('🦀');
    let expected: String = [19u32, 16]
        .iter()
        .map(|i| char::from_u32(0x4e00 + i).unwrap())
        .chain("🦀🦀".chars())
        .collect();
    assert_eq!(Encode::execute(&charset, b"M"), Ok(expected));
}

#[test]
fn charset_with_duplicate_is_rejected() {
    assert_eq!(Encode::execute("aabbcc", b"Man"), Err(EncodeError::CharsetError));
    let doubled = format!("{}A", BASE64);
    assert_eq!(Encode::execute(&doubled, b"Man"), Err(EncodeError::CharsetError));
    assert_eq!(Encode::execute(&doubled, b""), Err(EncodeError::CharsetError));
}

#[test]
fn charset_without_pad_is_rejected() {
    assert_eq!(Encode::execute(DATA_ONLY, b"Man"), Err(EncodeError::PadError));
    assert_eq!(Encode::execute(DATA_ONLY, b""), Err(EncodeError::PadError));
    assert_eq!(Encode::execute("abcd", b"M"), Err(EncodeError::PadError));
    assert_eq!(Encode::execute("", b"M"), Err(EncodeError::PadError));
}

#[test]
fn duplicate_is_reported_before_a_missing_pad() {
    assert_eq!(Encode::execute("abca", b"M"), Err(EncodeError::CharsetError));
}
