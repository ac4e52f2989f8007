use rzpdf::cross_ref_table::{CrossRefTable, ObjectInfo, ObjectState};
use rzpdf::error::PdfError;
use rzpdf::objects::{PdfDict, PdfObject};
use rzpdf::parser::syntax::SyntaxParser;
use rzpdf::parser::syntax_spec::ParseMode;

fn new_parser(buffer: &str) -> SyntaxParser {
    SyntaxParser::new(buffer.as_bytes().to_vec())
}

#[test]
fn test_read_name() {
    let buffer = "/Name#20One ";
    let mut parser = new_parser(buffer);
    let obj = parser.get_object().unwrap();
    let name = obj.as_name().unwrap();
    assert_eq!(name.name(), b"Name One");
}

#[test]
fn test_read_dict() {
    let buffer = r#"<</Type /Example
/Subtype /DictionaryExample
/W [1 2 3]
/Version 0.01
/IntegerItem 12
/StringItem (a string)
/Subdictionary << /Item1 0.4
/Item2 true
/LastItem (not!)
/VeryLastItem (OK)
>>
>>"#;
    let mut parser = new_parser(buffer);
    let obj = parser.get_object().unwrap();
    let dict = obj.as_dict().unwrap();
    assert!(dict.get(b"Subdictionary").is_some());
}

#[test]
fn test_read_string() {
    let buffer = "(line1\\\r\nline2\\053)";
    let mut parser = new_parser(buffer);
    let obj = parser.get_object().unwrap();
    let s = obj.into_string().unwrap();
    assert_eq!(s.bytes(), b"line1line2+");
}

#[test]
fn test_read_hex_string() {
    let buffer = "<48 65 6c6c6f2>";
    let mut parser = new_parser(buffer);
    let obj = parser.get_object().unwrap();
    let s = obj.into_string().unwrap();
    assert_eq!(s.raw_bytes(), b"Hello ".to_vec());
}

#[test]
fn test_get_next_word() {
    let buffer = "[this is a single [array] <<dict>>]";
    let mut parser = new_parser(buffer);
    assert_eq!(parser.get_next_word().unwrap().raw(), b"[");
    assert_eq!(parser.get_next_word().unwrap().raw(), b"this");
    assert_eq!(parser.get_next_word().unwrap().raw(), b"is");
}

#[test]
fn test_number_grammar() {
    let buffer = "+12 -.5 12. abc";
    let mut parser = new_parser(buffer);
    assert!(parser.get_next_word().unwrap().is_number());
    assert!(parser.get_next_word().unwrap().is_number());
    assert!(parser.get_next_word().unwrap().is_number());
    assert!(!parser.get_next_word().unwrap().is_number());
}

#[test]
fn test_header_read() {
    let buffer = "%PDF-1.7\r\n%\u{80}\u{80}\u{80}\u{80}\r\n";
    let mut parser = SyntaxParser::with_mode(buffer.as_bytes().to_vec(), ParseMode::Strict);
    let header = parser.read_header().unwrap();
    assert_eq!(header.version(), b"1.7");
}

#[test]
fn test_strict_header_requires_binary_comment_line() {
    let buffer = "%PDF-1.7\r\n%abc\r\n";
    let mut parser = SyntaxParser::with_mode(buffer.as_bytes().to_vec(), ParseMode::Strict);
    assert!(parser.read_header().is_err());
}

#[test]
fn test_strict_duplicate_dict_key_rejected() {
    let buffer = "<< /Type /A /Type /B >>";
    let mut parser = SyntaxParser::with_mode(buffer.as_bytes().to_vec(), ParseMode::Strict);
    assert!(parser.get_object().is_err());
}

#[test]
fn test_name_preserves_raw_bytes() {
    let buffer = "/A#ffB";
    let mut parser = new_parser(buffer);
    let obj = parser.get_object().unwrap();
    let name = obj.as_name().unwrap();
    assert_eq!(name.bytes(), b"A\xffB");
}

#[test]
fn test_stream_length_indirect_reference() {
    let buffer = b"<< /Length 1 0 R >>\nstream\nabcde\nendstream\n1 0 obj\n5\nendobj\n";
    let object1_offset = buffer
        .windows(b"1 0 obj".len())
        .position(|slice| slice == b"1 0 obj")
        .unwrap() as u64;

    let mut xref = CrossRefTable::new_empty();
    xref.merge(CrossRefTable::new(
        vec![ObjectInfo::new(1, object1_offset, 0, ObjectState::Normal)],
        PdfDict::new(),
    ));
    let mut parser = SyntaxParser::new(buffer.to_vec()).with_xref_table(xref);
    let stream = parser.get_object().unwrap().into_stream().unwrap();
    assert_eq!(stream.raw_data(), b"abcde");
}

#[test]
fn lax_duplicate_dict_key_keeps_first_entry_with_last_value() {
    let mut parser = new_parser("<< /Type /A /Type /B >>");
    let obj = parser.get_object().unwrap();
    let dict = obj.as_dict().unwrap();
    assert_eq!(dict.len(), 1);
    assert_eq!(dict.get(b"Type").unwrap().as_name().unwrap().name(), b"B");
}

#[test]
fn reference_and_numbers_in_array() {
    let mut parser = new_parser("[1 0 R 2 -3.5]");
    let obj = parser.get_object().unwrap();
    let arr = obj.as_array().unwrap();
    assert_eq!(arr.len(), 3);
    let r = arr.get(0).unwrap().as_reference().unwrap();
    assert_eq!((r.objnum(), r.gennum()), (1, 0));
    assert_eq!(arr.get(1).unwrap().as_number().unwrap().lexeme(), b"2");
    assert_eq!(arr.get(2).unwrap().as_number().unwrap().lexeme(), b"-3.5");
}

#[test]
fn octal_escape_past_a_byte_is_refused() {
    let mut parser = new_parser("(\\777)");
    assert_eq!(parser.get_object(), Err(PdfError::ParserError));
}

#[test]
fn next_word_at_end_is_end_of_file() {
    let mut parser = new_parser("   ");
    assert_eq!(parser.get_next_word().err(), Some(PdfError::EndofFile));
}

#[test]
fn word_text_needs_utf8() {
    let mut parser = SyntaxParser::new(vec![0xffu8, 0xfe, b' ']);
    let w = parser.get_next_word().unwrap();
    assert_eq!(w.into_string(), Err(PdfError::ParserError));
    let mut parser = new_parser("héllo ");
    let w = parser.get_next_word().unwrap();
    assert_eq!(w.into_string().unwrap(), "héllo".to_string());
}

#[test]
fn indirect_object_is_read() {
    let mut parser = new_parser("12 3 obj\n<< /A true >>\nendobj\n");
    let ind = parser.get_indirect_object().unwrap();
    assert_eq!(ind.objnum, 12);
    assert_eq!(ind.gennum, 3);
    let dict = ind.obj().as_dict().unwrap();
    assert_eq!(dict.get(b"A"), Some(&PdfObject::PdfBool(rzpdf::objects::PdfBool::new(b"true"))));
}

#[test]
fn word_numbers_are_checked() {
    let mut parser = new_parser("4294967296 42");
    let big = parser.get_next_word().unwrap();
    assert!(big.as_u32_checked().is_err());
    assert_eq!(big.as_u64_checked(), Ok(4294967296));
    let small = parser.get_next_word().unwrap();
    assert_eq!(small.as_u16_checked(), Ok(42));
}
