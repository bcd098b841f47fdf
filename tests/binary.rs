use bitmap_codec::{
    to_binary, trim_binary_number, trim_binary_number_left, trim_binary_number_right,
};

#[test]
fn hex_digits_to_binary() {
    assert_eq!(to_binary('0'), "0000");
    assert_eq!(to_binary('7'), "0111");
    assert_eq!(to_binary('a'), "1010");
    assert_eq!(to_binary('F'), "1111");
    assert_eq!(to_binary('g'), "");
}

#[test]
fn test_trim_left_1() {
    assert_eq!(trim_binary_number_left(&vec![1, 1, 1, 1], 0), vec![1, 1, 1, 1]);
}

#[test]
fn test_trim_left_2() {
    assert_eq!(trim_binary_number_left(&vec![0, 1, 1, 1], 1), vec![1, 1, 1]);
}

#[test]
fn test_trim_left_3() {
    assert_eq!(trim_binary_number_left(&vec![0, 0, 1, 1], 2), vec![1, 1]);
}

#[test]
fn test_trim_left_4() {
    assert_eq!(trim_binary_number_left(&vec![0, 0, 0, 1], 3), vec![1]);
}

#[test]
fn test_trim_left_5() {
    assert_eq!(trim_binary_number_left(&vec![0, 0, 0, 0], 4), Vec::<u8>::new());
}

#[test]
fn test_trim_left_6() {
    assert_eq!(trim_binary_number_left(&vec![1, 0, 0, 1], 1), vec![1, 0, 0, 1]);
}

#[test]
fn test_trim_left_7() {
    assert_eq!(trim_binary_number_left(&vec![0, 1, 0, 0], 3), vec![1, 0, 0]);
}

#[test]
fn test_trim_right_1() {
    assert_eq!(trim_binary_number_right(&vec![1, 1, 1, 1], 0), vec![1, 1, 1, 1]);
}

#[test]
fn test_trim_right_2() {
    assert_eq!(trim_binary_number_right(&vec![1, 1, 1, 0], 1), vec![1, 1, 1]);
}

#[test]
fn test_trim_right_3() {
    assert_eq!(trim_binary_number_right(&vec![1, 1, 0, 0], 2), vec![1, 1]);
}

#[test]
fn test_trim_right_4() {
    assert_eq!(trim_binary_number_right(&vec![1, 0, 0, 0], 3), vec![1]);
}

#[test]
fn test_trim_right_5() {
    assert_eq!(trim_binary_number_right(&vec![0, 0, 0, 0], 4), Vec::<u8>::new());
}

#[test]
fn test_trim_right_6() {
    assert_eq!(trim_binary_number_right(&vec![1, 0, 0, 1], 1), vec![1, 0, 0, 1]);
}

#[test]
fn test_trim_right_7() {
    assert_eq!(trim_binary_number_right(&vec![0, 1, 0, 0], 3), vec![0, 1]);
}

#[test]
fn test_trim_1() {
    assert_eq!(trim_binary_number(&vec![0, 1, 1, 0], 1), vec![1, 1, 0]);
}

#[test]
fn test_trim_2() {
    assert_eq!(trim_binary_number(&vec![1, 1, 1, 0], 1), vec![1, 1, 1]);
}

#[test]
fn trim_takes_trailing_zeros_when_leading_bit_is_set() {
    assert_eq!(trim_binary_number(&vec![1, 0, 0, 1], 3), vec![1, 0, 0, 1]);
    assert_eq!(trim_binary_number(&vec![1, 0, 0, 0], 2), vec![1, 0]);
    assert_eq!(trim_binary_number(&Vec::new(), 2), Vec::<u8>::new());
}
