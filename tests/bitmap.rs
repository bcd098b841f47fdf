use bitmap_codec::bitmap::BitMap;
use bitmap_codec::traits::Encode;
use bitmap_codec::types::ErrorKind;

#[test]
fn test_create_bitmap() {
    let s = "all around antarctica";
    let bitmap = BitMap::new(&s, 'a');
    assert_eq!(
        *bitmap.map(),
        vec![1, 0, 0, 0, 1, 0, 0, 0, 0, 0, 0, 1, 0, 0, 1, 0, 0, 0, 0, 0, 1]
    );
}

#[test]
fn test_create_bitmap_all_characters() {
    let s = "aaaa";
    let bitmap = BitMap::new(&s, 'a');
    assert_eq!(*bitmap.map(), vec![1, 1, 1, 1]);
}

#[test]
fn test_create_bitmap_no_characters() {
    let s = "five";
    let bitmap = BitMap::new(&s, 'a');
    assert_eq!(*bitmap.map(), vec![0, 0, 0, 0]);
}

#[test]
fn test_bitmap_to_hex() {
    let bitmap = BitMap::new("abbabaaabbbaaaaa", 'a');
    let hex = bitmap.to_hex();
    assert_eq!(hex, String::from("971f"));
}

#[test]
fn test_bitmap_encode() {
    let bitmap = BitMap::new("abbabaaabbbaaaaa", 'a');
    let encoding = bitmap.encode().unwrap();
    assert_eq!(encoding, String::from("61971f"));
}

#[test]
fn test_bitmap_from_str() {
    let s = "61971f";
    let bitmap = BitMap::from_str(&s, 16).unwrap();
    let expected_bitmap = BitMap::new("abbabaaabbbaaaaa", 'a');

    assert_eq!(bitmap, expected_bitmap);
}

#[test]
fn test_bitmap_from_str_variant_size() {
    let s = "61971e";
    let bitmap = BitMap::from_str(&s, 15).unwrap();
    let expected = BitMap::new("abbabaaabbbaaaa", 'a');

    assert_eq!(bitmap, expected);
}

#[test]
fn test_bitmap_from_str_variant_size_2() {
    let s = "63007";
    let bitmap = BitMap::from_str(&s, 11).unwrap();
    let expected = BitMap::new("aaa bbb ccc", 'c');

    assert_eq!(bitmap, expected);
}

#[test]
fn test_bitmap_from_str_variant_size_3() {
    let s = "63003";
    let bitmap = BitMap::from_str(&s, 10).unwrap();
    let expected = BitMap::new("aaa bbb cc", 'c');

    assert_eq!(bitmap, expected);
}

#[test]
fn test_bitmap_from_str_variant_size_4() {
    let s = "63001";
    let bitmap = BitMap::from_str(&s, 9).unwrap();
    let expected = BitMap::new("aaa bbb c", 'c');

    assert_eq!(bitmap, expected);
}

#[test]
fn test_bitmap_decode() {
    let s = "61971e";
    let bitmap = BitMap::from_str(&s, 15).unwrap();
    let expected = String::from("a00a0aaa000aaaa");

    assert_eq!(bitmap.decode().unwrap(), expected);
}

#[test]
#[should_panic(expected = "String too short")]
fn test_bitmap_from_str_panic_too_short() {
    let s = "61";
    BitMap::from_str(&s, 5).unwrap();
}

#[test]
#[should_panic(expected = "invalid digit found in string")]
fn test_bitmap_from_str_panic_invalid_digit() {
    let s = "jj0001";
    BitMap::from_str(&s, 10).unwrap();
}

#[test]
fn short_fragments_are_malformed_payload() {
    for s in ["", "6", "61"] {
        let e = BitMap::from_str(s, 4).err().unwrap();
        assert_eq!(e.kind(), ErrorKind::MalformedPayload);
    }
}

#[test]
fn invalid_digit_after_the_code_is_rejected() {
    let e = BitMap::from_str("61x1", 4).err().unwrap();
    assert_eq!(e.kind(), ErrorKind::InvalidHexDigit);
}

#[test]
fn uppercase_digits_are_accepted() {
    let lower = BitMap::from_str("61971f", 16).unwrap();
    let upper = BitMap::from_str("61971F", 16).unwrap();
    assert_eq!(lower, upper);
}

#[test]
fn whole_groups_are_not_trimmed() {
    let bitmap = BitMap::from_str("610f", 8).unwrap();
    assert_eq!(*bitmap.map(), vec![0, 0, 0, 0, 1, 1, 1, 1]);
    assert_eq!(bitmap.character(), 'a');
}

#[test]
fn short_bitmap_trims_its_only_group() {
    let bitmap = BitMap::new("aba", 'a');
    assert_eq!(bitmap.to_hex(), "5");
    let back = BitMap::from_str("615", 3).unwrap();
    assert_eq!(back, bitmap);
    assert_eq!(back.decode().unwrap(), "a0a");
}

#[test]
fn last_short_group_is_packed_as_its_value() {
    let bitmap = BitMap::new("aaaab", 'b');
    assert_eq!(bitmap.to_hex(), "01");
    assert_eq!(bitmap.encode().unwrap(), "6201");
}

#[test]
fn wide_character_cannot_be_encoded() {
    let bitmap = BitMap::new("ā", 'ā');
    assert_eq!(bitmap.encode().err().unwrap().kind(), ErrorKind::CharacterOutOfRange);
}

#[test]
fn byte_range_character_code() {
    let bitmap = BitMap::new("éa", 'é');
    assert_eq!(bitmap.encode().unwrap(), "e92");
}
