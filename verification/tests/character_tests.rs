use rzpdf::parser::character::{
    get_char_type, is_delimiter, is_end_of_line, is_number, is_regular, is_white_space,
};
use rzpdf::parser::parse_utility::hex_to_u8;

#[test]
fn test_is_whitespace() {
    let t = get_char_type(32);
    println!("{:?}", t);
}

#[test]
fn character_classes() {
    for c in [0u8, 9, 10, 12, 13, 32] {
        assert!(is_white_space(c));
        assert!(!is_regular(c));
    }
    for c in b"()<>[]{}/%" {
        assert!(is_delimiter(*c));
    }
    for c in b"0123456789+-." {
        assert!(is_number(*c));
    }
    assert!(is_regular(b'a'));
    assert!(is_end_of_line(b'\r') && is_end_of_line(b'\n') && !is_end_of_line(b' '));
}

#[test]
fn hex_digits() {
    assert_eq!(hex_to_u8(b'0'), 0);
    assert_eq!(hex_to_u8(b'9'), 9);
    assert_eq!(hex_to_u8(b'a'), 10);
    assert_eq!(hex_to_u8(b'F'), 15);
}
