use rzpdf::cross_ref_table::ObjectState;
use rzpdf::error::PdfError;
use rzpdf::parser::parser::{find_start_xref, parse_xref, PdfParser};
use rzpdf::parser::syntax::SyntaxParser;
use rzpdf::parser::syntax_spec::ParseMode;
use rzpdf::parser::xref_stream::{parse_xref_stream, xref_stream_table_decoded};

#[test]
fn test_find_start_xref() {
    let buffer = r#" end obj \r\n startxref 1000 \r\n %EOF "#;
    let mut syntax = SyntaxParser::new(buffer.as_bytes().to_vec());
    let startxref = find_start_xref(&mut syntax).unwrap() as usize;
    assert_eq!(startxref, 1000);
}

#[test]
fn test_find_last_startxref() {
    let buffer = b"%PDF-1.7\n1 0 obj\n(startxref)\nendobj\nstartxref\n42\n%%EOF\nstartxref\n99\n%%EOF";
    let mut syntax = SyntaxParser::new(buffer.to_vec());
    let startxref = find_start_xref(&mut syntax).unwrap();
    assert_eq!(startxref, 99);
}

#[test]
fn test_parse_xref_keeps_free_entries() {
    let body = b"%PDF-1.7\n1 0 obj\n<<>>\nendobj\n";
    let xref_offset = body.len();
    let mut pdf = body.to_vec();
    pdf.extend_from_slice(b"xref\n0 2\n0000000000 65535 f\n0000000009 00000 n\ntrailer\n<< /Size 2 >>\nstartxref\n");
    pdf.extend_from_slice(xref_offset.to_string().as_bytes());
    pdf.extend_from_slice(b"\n%%EOF\n");

    let mut syntax = SyntaxParser::new(pdf);
    let xref = parse_xref(&mut syntax).unwrap();

    let free = xref.lookup(&0).unwrap();
    assert!(matches!(free.state(), ObjectState::Free));
    let in_use = xref.lookup(&1).unwrap();
    assert!(matches!(in_use.state(), ObjectState::Normal));
}

#[test]
fn test_strict_xref_trailer_requires_size() {
    let pdf = b"%PDF-1.7\nxref\n0 1\n0000000000 65535 f\ntrailer\n<< >>\nstartxref\n9\n%%EOF\n";
    let mut syntax = SyntaxParser::with_mode(pdf.to_vec(), ParseMode::Strict);
    assert!(parse_xref(&mut syntax).is_err());
}

#[test]
fn test_strict_xref_stream_requires_type_xref() {
    let pdf = b"1 0 obj\n<< /Size 1 /W [1 1 1] /Length 3 >>\nstream\n\x01\x00\x00\nendstream\nendobj\n";
    let mut syntax = SyntaxParser::with_mode(pdf.to_vec(), ParseMode::Strict);
    assert!(parse_xref_stream(&mut syntax, 0).is_err());
}

#[test]
fn test_strict_xref_stream_rejects_trailing_bytes() {
    let pdf = b"1 0 obj\n<< /Type /XRef /Size 1 /W [1 1 1] /Length 4 >>\nstream\n\x01\x00\x00\xff\nendstream\nendobj\n";
    let mut syntax = SyntaxParser::with_mode(pdf.to_vec(), ParseMode::Strict);
    assert!(parse_xref_stream(&mut syntax, 0).is_err());
}

#[test]
fn test_strict_find_startxref_requires_final_eof() {
    let buffer = b"%PDF-1.7\nstartxref\n12\n%%EOF\njunk";
    let mut syntax = SyntaxParser::with_mode(buffer.to_vec(), ParseMode::Strict);
    assert!(find_start_xref(&mut syntax).is_err());
}

#[test]
fn test_strict_parse_xref_rejects_zero_count_subsection() {
    let pdf = b"%PDF-1.7\nxref\n0 0\ntrailer\n<< /Size 1 >>\nstartxref\n9\n%%EOF\n";
    let mut syntax = SyntaxParser::with_mode(pdf.to_vec(), ParseMode::Strict);
    assert!(parse_xref(&mut syntax).is_err());
}

#[test]
fn test_strict_parse_xref_rejects_bad_entry_width() {
    let pdf = b"%PDF-1.7\nxref\n0 1\n000000000 65535 f\ntrailer\n<< /Size 1 >>\nstartxref\n9\n%%EOF\n";
    let mut syntax = SyntaxParser::with_mode(pdf.to_vec(), ParseMode::Strict);
    assert!(parse_xref(&mut syntax).is_err());
}

#[test]
fn test_strict_parse_xref_requires_object_zero_free_65535() {
    let pdf = b"%PDF-1.7\nxref\n0 1\n0000000000 00000 n\ntrailer\n<< /Size 1 >>\nstartxref\n9\n%%EOF\n";
    let mut syntax = SyntaxParser::with_mode(pdf.to_vec(), ParseMode::Strict);
    assert!(parse_xref(&mut syntax).is_err());
}

#[test]
fn test_strict_parse_xref_stream_requires_object_zero_free_65535() {
    let xref_stream = b"1 0 obj\n<< /Type /XRef /Size 1 /W [1 1 2] /Length 4 >>\nstream\n\x01\x00\x00\x00\nendstream\nendobj\n";
    let mut pdf = xref_stream.to_vec();
    pdf.extend_from_slice(b"startxref\n0\n%%EOF\n");
    let mut syntax = SyntaxParser::with_mode(pdf.to_vec(), ParseMode::Strict);
    assert!(parse_xref(&mut syntax).is_err());
}

#[test]
fn xref_stream_entries_are_read_big_endian() {
    let pdf = b"1 0 obj\n<< /Type /XRef /Size 3 /W [1 2 1] /Length 12 >>\nstream\n\x00\x00\x00\xff\x01\x01\x02\x00\x02\x00\x07\x03\nendstream\nendobj\n";
    let mut syntax = SyntaxParser::with_mode(pdf.to_vec(), ParseMode::Strict);
    let table = parse_xref_stream(&mut syntax, 0).unwrap();
    let zero = table.lookup(&0).unwrap();
    assert_eq!((zero.offset(), zero.gennum(), zero.state()), (0, 255, ObjectState::Free));
    let one = table.lookup(&1).unwrap();
    assert_eq!((one.offset(), one.gennum(), one.state()), (258, 0, ObjectState::Normal));
    let two = table.lookup(&2).unwrap();
    assert_eq!((two.offset(), two.gennum(), two.state()), (7, 3, ObjectState::Compressed));
    assert!(table.trailer().get(b"W").is_some());
}

#[test]
fn xref_stream_index_pairs_name_the_objects() {
    let pdf = b"1 0 obj\n<< /Size 20 /Index [5 1 10 1] /W [0 1 0] /Length 2 >>\nstream\n\x10\x20\nendstream\nendobj\n";
    let mut syntax = SyntaxParser::new(pdf.to_vec());
    let table = parse_xref_stream(&mut syntax, 0).unwrap();
    assert_eq!(table.lookup(&5).unwrap().offset(), 16);
    assert_eq!(table.lookup(&10).unwrap().offset(), 32);
    assert!(table.lookup(&0).is_none());
}

#[test]
fn xref_stream_unknown_type_is_refused() {
    let pdf = b"1 0 obj\n<< /Size 1 /W [1 1 1] /Length 3 >>\nstream\n\x05\x00\x00\nendstream\nendobj\n";
    let mut syntax = SyntaxParser::new(pdf.to_vec());
    assert_eq!(parse_xref_stream(&mut syntax, 0).err(), Some(PdfError::ParserError));
}

#[test]
fn xref_stream_with_filter_is_unsupported() {
    let pdf = b"1 0 obj\n<< /Size 1 /W [1 1 1] /Filter /FlateDecode /Length 3 >>\nstream\n\x01\x00\x00\nendstream\nendobj\n";
    let mut syntax = SyntaxParser::new(pdf.to_vec());
    assert_eq!(parse_xref_stream(&mut syntax, 0).err(), Some(PdfError::Unsupported));
}

#[test]
fn decoded_xref_stream_data_is_read() {
    let pdf = b"1 0 obj\n<< /Size 2 /W [1 1 1] /Filter /FlateDecode /Length 3 >>\nstream\nxyz\nendstream\nendobj\n";
    let mut syntax = SyntaxParser::new(pdf.to_vec());
    let obj = syntax.get_indirect_object().unwrap().to_obj();
    let stream = obj.as_stream().unwrap();
    let decoded: &[u8] = &[0u8, 0, 255, 1, 9, 0];
    let table = xref_stream_table_decoded(stream.dict(), decoded, ParseMode::Compatible).unwrap();
    let zero = table.lookup(&0).unwrap();
    assert_eq!((zero.offset(), zero.gennum(), zero.state()), (0, 255, ObjectState::Free));
    let one = table.lookup(&1).unwrap();
    assert_eq!((one.offset(), one.gennum(), one.state()), (9, 0, ObjectState::Normal));
    assert!(table.trailer().get(b"Filter").is_some());
    let short: &[u8] = &[1u8, 9, 0];
    assert_eq!(
        xref_stream_table_decoded(stream.dict(), short, ParseMode::Compatible).err(),
        Some(PdfError::ParserError)
    );
}

#[test]
fn xref_stream_short_data_is_refused() {
    let pdf = b"1 0 obj\n<< /Size 2 /W [1 1 1] /Length 3 >>\nstream\n\x01\x00\x00\nendstream\nendobj\n";
    let mut syntax = SyntaxParser::new(pdf.to_vec());
    assert_eq!(parse_xref_stream(&mut syntax, 0).err(), Some(PdfError::ParserError));
}

fn table_pdf(prev_of_second: &str) -> Vec<u8> {
    let mut pdf = b"%PDF-1.7\n".to_vec();
    let first = pdf.len();
    pdf.extend_from_slice(b"xref\n0 2\n0000000000 65535 f\n0000000100 00000 n\ntrailer\n<< /Size 3 >>\n");
    let second = pdf.len();
    pdf.extend_from_slice(b"xref\n1 2\n0000000200 00000 n\n0000000300 00000 n\ntrailer\n<< /Size 3 /Prev ");
    let prev = if prev_of_second == "self" { second.to_string() } else { first.to_string() };
    pdf.extend_from_slice(prev.as_bytes());
    pdf.extend_from_slice(b" >>\nstartxref\n");
    pdf.extend_from_slice(second.to_string().as_bytes());
    pdf.extend_from_slice(b"\n%%EOF\n");
    pdf
}

#[test]
fn newer_sections_win_over_prev_sections() {
    let mut syntax = SyntaxParser::new(table_pdf("first"));
    let xref = parse_xref(&mut syntax).unwrap();
    assert_eq!(xref.lookup(&0).unwrap().state(), ObjectState::Free);
    assert_eq!(xref.lookup(&1).unwrap().offset(), 200);
    assert_eq!(xref.lookup(&2).unwrap().offset(), 300);
    assert!(xref.trailer().get(b"Prev").is_some());
}

#[test]
fn prev_cycle_ends() {
    let mut syntax = SyntaxParser::new(table_pdf("self"));
    let xref = parse_xref(&mut syntax).unwrap();
    assert_eq!(xref.lookup(&1).unwrap().offset(), 200);
    assert!(xref.lookup(&0).is_none());
}

#[test]
fn missing_startxref_is_refused() {
    let mut syntax = SyntaxParser::new(b"%PDF-1.7\nnothing here\n".to_vec());
    assert_eq!(find_start_xref(&mut syntax), Err(PdfError::ParserError));
}

#[test]
fn parser_reads_indirect_object_at_offset() {
    let data = b"junk 7 0 obj (seven) endobj".to_vec();
    let mut parser = PdfParser::new(SyntaxParser::new(data));
    let obj = parser.parse_indirect_obj(5).unwrap();
    assert_eq!(obj.as_string().unwrap().bytes(), b"seven");
    assert!(parser.parse_indirect_obj(0).is_err());
}
