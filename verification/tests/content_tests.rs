use rzpdf::error::PdfError;
use rzpdf::objects::PdfObject;
use rzpdf::page::content_builder::ContentBuilder;
use rzpdf::page::content_parser::ContentParser;
use rzpdf::page::content_syntax::ContentSyntax;
use rzpdf::page::opcode::is_op;
use rzpdf::page::operator::Operator;
use rzpdf::parser::syntax::SyntaxParser;

#[test]
fn test_content_parser() {
    println!("tet content parser");
    let content: &[u8] = &[
        113, 10, 47, 82, 101, 108, 97, 116, 105, 118, 101, 67, 111, 108, 111, 114, 105, 109,
        101, 116, 114, 105, 99, 32, 114, 105, 32, 10, 47, 71, 83, 50, 32, 103, 115, 10, 66, 84,
        10, 47, 70, 49, 32, 49, 32, 84, 102, 10, 49, 51, 46, 57, 49, 56, 51, 32, 48, 32, 48,
        32, 49, 51, 46, 57, 49, 56, 51, 32, 50, 50, 49, 46, 54, 53, 57, 32, 53, 50, 51, 46, 57,
        54, 54, 49, 32, 84, 109, 10, 47, 67, 115, 56, 32, 99, 115, 32, 49, 32, 115, 99, 110,
        10, 48, 46, 48, 54, 57, 56, 32, 84, 99, 10, 48, 32, 84, 119, 10, 91, 40, 70, 111, 117,
        114, 116, 104, 41, 45, 51, 54, 49, 46, 55, 40, 69, 100, 105, 116, 105, 111, 110, 41,
        93, 84, 74, 10, 47, 70, 50, 32, 49, 32, 84, 102, 10, 50, 56, 46, 51, 51, 51, 55, 32,
        48, 32, 48, 32, 50, 56, 46, 51, 51, 51, 55, 32, 50, 50, 49, 46, 54, 53, 57, 32, 52, 56,
        49, 46, 51, 50, 52, 51, 32, 84, 109, 10, 48, 32, 84, 99, 10, 91, 40, 68, 97, 116, 97,
        41, 45, 50, 52, 48, 46, 49, 40, 83, 116, 114, 117, 99, 116, 117, 114, 101, 115, 41, 93,
        84, 74, 10, 48, 32, 45, 49, 46, 48, 53, 50, 55, 32, 84, 68, 10, 45, 48, 46, 48, 48, 48,
        49, 32, 84, 99, 10, 91, 40, 97, 110, 100, 41, 45, 50, 52, 48, 46, 50, 40, 65, 108, 103,
        111, 114, 105, 116, 104, 109, 41, 93, 84, 74, 10, 84, 42, 10, 48, 32, 84, 99, 10, 91,
        40, 65, 110, 97, 108, 121, 115, 105, 115, 41, 45, 50, 52, 48, 46, 51, 40, 105, 110, 41,
        93, 84, 74, 10, 56, 53, 46, 50, 57, 57, 50, 32, 48, 32, 48, 32, 56, 53, 46, 50, 57, 57,
        50, 32, 50, 56, 48, 46, 51, 49, 52, 32, 51, 53, 49, 46, 48, 49, 56, 55, 32, 84, 109,
        10, 40, 67, 41, 84, 106, 10, 52, 55, 46, 55, 49, 57, 56, 32, 48, 32, 48, 32, 52, 55,
        46, 55, 49, 57, 56, 32, 51, 50, 54, 46, 49, 49, 55, 50, 32, 51, 54, 55, 46, 57, 50, 49,
        32, 84, 109, 10, 40, 43, 43, 41, 84, 106, 10, 69, 84, 10, 81, 10,
    ];
    println!("{}", String::from_utf8(content.to_vec()).unwrap());
    let syntax = SyntaxParser::new(content.to_vec());
    let mut parser = ContentParser::new(syntax);
    loop {
        let op = parser.read_operator().unwrap();
        match op {
            Some(op) => {
                println!("{:?}", op);
            }
            None => {
                break;
            }
        }
    }
}

#[test]
fn test_parse_tj() {
    let content = b"<0011>Tj abc";
    let syntax = SyntaxParser::new(content.to_vec());
    let mut parser = ContentParser::new(syntax);
    let op = parser.read_operator();
    println!("op: {:?}", op);
}

#[test]
fn operators_come_with_their_operands() {
    let mut parser = ContentParser::new(SyntaxParser::new(b"q 1 0 0 1 5 6 cm /F1 12 Tf (Hi) Tj Q".to_vec()));
    let q = parser.read_operator().unwrap().unwrap();
    assert_eq!(q.name(), "q");
    assert_eq!(q.num_operands(), 0);
    let cm = parser.read_operator().unwrap().unwrap();
    assert_eq!(cm.name(), "cm");
    assert_eq!(cm.num_operands(), 6);
    assert_eq!(cm.operand(4).unwrap().as_number().unwrap().lexeme(), b"5");
    let tf = parser.read_operator().unwrap().unwrap();
    assert_eq!(tf.name(), "Tf");
    assert_eq!(tf.operand(0).unwrap().as_name().unwrap().name(), b"F1");
    let tj = parser.read_operator().unwrap().unwrap();
    assert_eq!(tj.operand(0).unwrap().as_string().unwrap().bytes(), b"Hi");
    let close = parser.read_operator().unwrap().unwrap();
    assert_eq!(close.name(), "Q");
    assert!(parser.read_operator().unwrap().is_none());
}

#[test]
fn tj_with_hex_string_operand() {
    let mut parser = ContentParser::new(SyntaxParser::new(b"<0011>Tj abc".to_vec()));
    let op = parser.read_operator().unwrap().unwrap();
    assert_eq!(op.name(), "Tj");
    let s = op.operand(0).unwrap().as_string().unwrap();
    assert_eq!(s.bytes(), &[0u8, 0x11]);
    assert!(s.is_hex());
}

#[test]
fn operands_at_end_give_none() {
    let mut parser = ContentParser::new(SyntaxParser::new(b"1 2 /N".to_vec()));
    assert!(parser.read_operator().unwrap().is_none());
    let mut parser = ContentParser::new(SyntaxParser::new(b"1 2 3".to_vec()));
    assert_eq!(parser.read_operator().err(), Some(PdfError::EndofFile));
}

#[test]
fn bad_operand_is_a_parse_error() {
    let mut parser = ContentParser::new(SyntaxParser::new(b"1 } f".to_vec()));
    assert!(parser.read_operator().is_err());
}

#[test]
fn inline_image_dictionary_is_skipped() {
    let mut parser = ContentParser::new(SyntaxParser::new(b"BI /W 1 /H 1 ID EI".to_vec()));
    let op = parser.read_operator().unwrap().unwrap();
    assert_eq!(op.name(), "EI");
    let mut bad = ContentParser::new(SyntaxParser::new(b"BI 1 2 ID EI".to_vec()));
    assert_eq!(bad.read_operator().err(), Some(PdfError::ContentParseError));
}

#[test]
fn operators_are_known() {
    for op in [&b"w"[..], b"Tj", b"'", b"\"", b"scn", b"BDC", b"T*", b"EX"] {
        assert!(is_op(op));
    }
    for op in [&b""[..], b"x", b"TJJ", b"abc", b"BDCX"] {
        assert!(!is_op(op));
    }
}

#[test]
fn operand_out_of_range_is_an_error() {
    let op = Operator::new("re".to_string(), vec![PdfObject::PdfNull]);
    assert!(op.operand(0).is_ok());
    assert_eq!(op.operand(1).err(), Some(PdfError::ContentParseError));
    let empty = Operator::default();
    assert_eq!(empty.name(), "");
    assert_eq!(empty.num_operands(), 0);
}

#[test]
fn builder_writes_operator_lines() {
    let mut builder = ContentBuilder::new();
    builder.save_state().begin_text().show_text("a(b)\\c\n").end_text().fill().stroke().restore_state();
    builder.raw_operator("1 0 0 RG");
    assert_eq!(builder.build(), b"q\nBT\n(a\\(b\\)\\\\c\\n) Tj\nET\nf\nS\nQ\n1 0 0 RG\n".to_vec());
}

#[test]
fn builder_output_parses_back() {
    let mut builder = ContentBuilder::new();
    builder.save_state().begin_text().show_text("tab\there (x)").end_text().fill().stroke().restore_state();
    let mut parser = ContentParser::new(SyntaxParser::new(builder.build()));
    assert_eq!(parser.read_operator().unwrap().unwrap().name(), "q");
    assert_eq!(parser.read_operator().unwrap().unwrap().name(), "BT");
    let tj = parser.read_operator().unwrap().unwrap();
    assert_eq!(tj.name(), "Tj");
    assert_eq!(tj.num_operands(), 1);
    assert_eq!(tj.operand(0).unwrap().as_string().unwrap().bytes(), b"tab\there (x)");
    for name in ["ET", "f", "S", "Q"] {
        let op = parser.read_operator().unwrap().unwrap();
        assert_eq!(op.name(), name);
        assert_eq!(op.num_operands(), 0);
    }
    assert!(parser.read_operator().unwrap().is_none());
}

#[test]
fn content_syntax_end() {
    let s = ContentSyntax::new(vec![1, 2, 3]);
    assert!(!s.is_end());
}
