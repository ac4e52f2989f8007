use vstd::prelude::*;

verus! {

/// White-space bytes: NUL, TAB, LF, FF, CR, SPACE, and the bytes 0x80 and 0xff.
pub open spec fn spec_is_white_space(c: u8) -> bool {
    c == 0u8 || c == 9u8 || c == 10u8 || c == 12u8 || c == 13u8 || c == 32u8 || c == 128u8 || c
        == 255u8
}

/// Numeric bytes: the ten digits and `+`, `-`, `.`.
pub open spec fn spec_is_number(c: u8) -> bool {
    (48u8 <= c && c <= 57u8) || c == 43u8 || c == 45u8 || c == 46u8
}

/// Delimiter bytes: `%`, `(`, `)`, `/`, `<`, `>`, `[`, `]`, `{`, `}`.
pub open spec fn spec_is_delimiter(c: u8) -> bool {
    c == 37u8 || c == 40u8 || c == 41u8 || c == 47u8 || c == 60u8 || c == 62u8 || c == 91u8 || c
        == 93u8 || c == 123u8 || c == 125u8
}

/// Regular bytes: every byte that is neither white space, numeric, nor a delimiter.
pub open spec fn spec_is_regular(c: u8) -> bool {
    !spec_is_white_space(c) && !spec_is_number(c) && !spec_is_delimiter(c)
}

/// The class of a byte: 'W' for white space, 'N' for numeric, 'D' for delimiter, 'R' otherwise.
pub open spec fn spec_char_type(c: u8) -> char {
    if spec_is_white_space(c) {
        'W'
    } else if spec_is_number(c) {
        'N'
    } else if spec_is_delimiter(c) {
        'D'
    } else {
        'R'
    }
}

pub open spec fn spec_is_end_of_line(c: u8) -> bool {
    c == 13u8 || c == 10u8
}

/// ASCII decimal digit.
pub open spec fn spec_is_digit(c: u8) -> bool {
    48u8 <= c && c <= 57u8
}

/// ASCII hexadecimal digit (either case).
pub open spec fn spec_is_hex_digit(c: u8) -> bool {
    (48u8 <= c && c <= 57u8) || (65u8 <= c && c <= 70u8) || (97u8 <= c && c <= 102u8)
}

/// Regular characters are exactly the bytes that continue a token:
/// every byte is of exactly one class.
pub proof fn lemma_char_classes_partition(c: u8)
    ensures
        spec_char_type(c) == 'W' <==> spec_is_white_space(c),
        spec_char_type(c) == 'N' <==> spec_is_number(c),
        spec_char_type(c) == 'D' <==> spec_is_delimiter(c),
        spec_char_type(c) == 'R' <==> spec_is_regular(c),
        !(spec_is_white_space(c) && spec_is_number(c)),
        !(spec_is_white_space(c) && spec_is_delimiter(c)),
        !(spec_is_number(c) && spec_is_delimiter(c)),
        spec_is_end_of_line(c) ==> spec_is_white_space(c),
{
}

pub fn get_char_type(c: u8) -> (r: char)
    ensures
        r == spec_char_type(c),
{
    if c == 0u8 || c == 9u8 || c == 10u8 || c == 12u8 || c == 13u8 || c == 32u8 || c == 128u8
        || c == 255u8 {
        'W'
    } else if (48u8 <= c && c <= 57u8) || c == 43u8 || c == 45u8 || c == 46u8 {
        'N'
    } else if c == 37u8 || c == 40u8 || c == 41u8 || c == 47u8 || c == 60u8 || c == 62u8 || c
        == 91u8 || c == 93u8 || c == 123u8 || c == 125u8 {
        'D'
    } else {
        'R'
    }
}

pub fn is_white_space(c: u8) -> (r: bool)
    ensures
        r == spec_is_white_space(c),
{
    get_char_type(c) == 'W'
}

pub fn is_number(c: u8) -> (r: bool)
    ensures
        r == spec_is_number(c),
{
    get_char_type(c) == 'N'
}

pub fn is_delimiter(c: u8) -> (r: bool)
    ensures
        r == spec_is_delimiter(c),
{
    get_char_type(c) == 'D'
}

pub fn is_regular(c: u8) -> (r: bool)
    ensures
        r == spec_is_regular(c),
{
    get_char_type(c) == 'R'
}

pub fn is_end_of_line(c: u8) -> (r: bool)
    ensures
        r == spec_is_end_of_line(c),
{
    c == 13u8 || c == 10u8
}

pub fn is_digit(c: u8) -> (r: bool)
    ensures
        r == spec_is_digit(c),
{
    48u8 <= c && c <= 57u8
}

pub fn is_hex_digit(c: u8) -> (r: bool)
    ensures
        r == spec_is_hex_digit(c),
{
    (48u8 <= c && c <= 57u8) || (65u8 <= c && c <= 70u8) || (97u8 <= c && c <= 102u8)
}

} // verus!
