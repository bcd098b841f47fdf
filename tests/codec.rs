use std::collections::BTreeMap;

use bitmap_codec::bitmap::BitMap;
use bitmap_codec::decode::Decoder;
use bitmap_codec::encode::Encoder;
use bitmap_codec::traits::{Decode, Encode};
use bitmap_codec::types::ErrorKind;

fn get_raw_data() -> String {
    String::from("aaa bbb ccc")
}

fn get_bitmaps() -> BTreeMap<char, BitMap> {
    let data = get_raw_data();
    let mut hashmap = BTreeMap::new();

    hashmap.insert('a', BitMap::new(&data, 'a'));
    hashmap.insert('b', BitMap::new(&data, 'b'));
    hashmap.insert('c', BitMap::new(&data, 'c'));
    hashmap.insert(' ', BitMap::new(&data, ' '));

    hashmap
}

fn lorem_ipsum() -> String {
    "lorem ipsum dolor sit amet \
    , consectetur adipiscing elit, \
    sed do eiusmod tempor incididunt \
    ut labore et dolore magna aliqua. \
    Ut enim ad minim veniam, quis \
    nostrud exercitation ullamco \
    laboris nisi ut aliquip ex ea  \
    commodo consequat. Duis aute irure \
    dolor in reprehenderit in \
    voluptate velit esse cillum  \
    dolore eu fugiat nulla pariatur. \
    Excepteur sint occaecat cupidatat \
    non proident, sunt in culpa qui \
    officia deserunt mollit anim \
    id est laborum."
        .to_owned()
}

fn round_trip(text: &str) -> String {
    let encoded = Encoder::new(String::from(text)).encode().unwrap();
    Decoder::new(&encoded).unwrap().decode().unwrap()
}

#[test]
fn test_create_encoder() {
    let data = get_raw_data();
    let encoder = Encoder::new(String::from(&data));

    let bitmaps = get_bitmaps();

    for bitmap in encoder.bitmaps() {
        let c = bitmap.character();
        assert!(bitmaps.contains_key(&c));
        assert_eq!(*bitmap, bitmaps[&c]);
    }
    assert_eq!(encoder.bitmaps().len(), bitmaps.len());
}

#[test]
fn test_encode_data() {
    let data = get_raw_data();
    let encoder = Encoder::new(String::from(&data));

    let encoded_bitmap = encoder.encode().unwrap();
    let expected_encoding = "01b2011061e00620e063007";
    assert_eq!(encoded_bitmap, String::from(expected_encoding));
}

#[test]
fn test_init_decoder() {
    let hex_data = "04a32d62bbbbbbbb";
    let decoder = Decoder::new(hex_data).unwrap();
    assert_eq!(decoder.data_length(), 41773);
    assert_eq!(decoder.data(), "62bbbbbbbb");
}

#[test]
fn test_decode() {
    let hex_data = "01b2011061e00620e063007";
    let expected_result = "aaa bbb ccc";

    let decoded_data = Decoder::new(hex_data).unwrap().decode().unwrap();
    assert_eq!(decoded_data, expected_result);
}

#[test]
fn test_integration() {
    let input_data = lorem_ipsum();

    let encoder = Encoder::new(input_data.clone());
    let encoded_data = encoder.encode().unwrap();
    let mut decoder = Decoder::new(&encoded_data).unwrap();
    let decoded_data = decoder.decode().unwrap();

    assert_eq!(decoded_data, input_data);
}

#[test]
fn bitmaps_come_in_ascending_code_order() {
    let encoder = Encoder::new(String::from("cab ba"));
    let chars: Vec<char> = encoder.bitmaps().iter().map(|b| b.character()).collect();
    assert_eq!(chars, vec![' ', 'a', 'b', 'c']);
}

#[test]
fn encoding_is_deterministic() {
    let first = Encoder::new(String::from("zebra crossing")).encode().unwrap();
    let second = Encoder::new(String::from("zebra crossing")).encode().unwrap();
    assert_eq!(first, second);
    let reordered = Encoder::new(String::from("ba")).encode().unwrap();
    assert_eq!(reordered, "012611622");
}

#[test]
fn header_describes_the_length() {
    let text = "abcdefghijklmnopq";
    let encoded = Encoder::new(String::from(text)).encode().unwrap();
    assert!(encoded.starts_with("0211"));
    assert_eq!(Decoder::new(&encoded).unwrap().data_length(), 17);
}

#[test]
fn empty_text_round_trips() {
    let encoded = Encoder::new(String::new()).encode().unwrap();
    assert_eq!(encoded, "010");
    assert_eq!(Decoder::new(&encoded).unwrap().decode().unwrap(), "");
}

#[test]
fn byte_range_text_round_trips() {
    for text in ["a", "ab", "0a0", "héllo wörld", "1000", "0000 1111 0101", "a0b0c0d"] {
        assert_eq!(round_trip(text), text);
    }
}

#[test]
fn wide_characters_are_rejected_by_the_encoder() {
    let e = Encoder::new(String::from("aāb")).encode().err().unwrap();
    assert_eq!(e.kind(), ErrorKind::CharacterOutOfRange);
}

#[test]
fn malformed_headers_are_rejected() {
    for hex in ["", "0", "zz", "00", "05abc", "01g", "11ffffffffffffffffff"] {
        let e = Decoder::new(hex).err().unwrap();
        assert_eq!(e.kind(), ErrorKind::MalformedHeader);
    }
}

#[test]
fn truncated_frame_is_rejected_at_the_header() {
    let e = Decoder::new("61").err().unwrap();
    assert_eq!(e.kind(), ErrorKind::MalformedHeader);
}

#[test]
fn ragged_payload_is_malformed() {
    let mut decoder = Decoder::new("011abcd").unwrap();
    assert_eq!(decoder.decode().err().unwrap().kind(), ErrorKind::MalformedPayload);
}

#[test]
fn units_of_an_empty_text_are_too_short() {
    let mut decoder = Decoder::new("01061").unwrap();
    assert_eq!(decoder.decode().err().unwrap().kind(), ErrorKind::MalformedPayload);
}

#[test]
fn invalid_digit_in_a_unit_is_reported() {
    let mut decoder = Decoder::new("0136zz").unwrap();
    assert_eq!(decoder.decode().err().unwrap().kind(), ErrorKind::InvalidHexDigit);
}

#[test]
fn a_set_position_is_never_overwritten() {
    let mut decoder = Decoder::new("011301611").unwrap();
    assert_eq!(decoder.decode().unwrap(), "0");
}

#[test]
fn a_zero_character_keeps_its_position_before_later_units() {
    let mut decoder = Decoder::new("01430c61f").unwrap();
    assert_eq!(decoder.decode().unwrap(), "00aa");
}

#[test]
fn units_follow_character_code_order() {
    let encoded = Encoder::new(String::from("cba")).encode().unwrap();
    assert_eq!(encoded, "013611622634");
    let codes: Vec<&str> = (0..3).map(|k| &encoded[3 + 3 * k..3 + 3 * k + 2]).collect();
    assert_eq!(codes, vec!["61", "62", "63"]);
}
