use rzpdf::document::PdfDocument;
use rzpdf::error::PdfError;
use rzpdf::objects::{
    ObjectId, PdfArray, PdfBool, PdfDict, PdfName, PdfNumber, PdfObject, PdfReference, PdfStream,
    PdfString,
};
use rzpdf::writer::save_document;

fn small_pdf() -> Vec<u8> {
    let mut pdf = b"%PDF-1.7\n".to_vec();
    let off1 = pdf.len();
    pdf.extend_from_slice(b"1 0 obj\n<< /Type /Catalog /Pages 2 0 R >>\nendobj\n");
    let off2 = pdf.len();
    pdf.extend_from_slice(b"2 0 obj\n<< /Type /Pages /Kids [] /Count 0 >>\nendobj\n");
    let xref = pdf.len();
    pdf.extend_from_slice(b"xref\n0 3\n0000000000 65535 f \n");
    pdf.extend_from_slice(format!("{:010} 00000 n \n", off1).as_bytes());
    pdf.extend_from_slice(format!("{:010} 00000 n \n", off2).as_bytes());
    pdf.extend_from_slice(b"trailer\n<< /Size 3 /Root 1 0 R /Prev 0 >>\nstartxref\n");
    pdf.extend_from_slice(format!("{}\n%%EOF\n", xref).as_bytes());
    pdf
}

fn string_obj(s: &[u8]) -> PdfObject {
    PdfObject::PdfString(PdfString::new(s.to_vec(), false))
}

#[test]
fn opened_document_resolves_its_objects() {
    let mut doc = PdfDocument::from_bytes(small_pdf()).unwrap();
    let catalog = doc.resolve_object(ObjectId::new(1, 0)).unwrap();
    let dict = catalog.as_dict().unwrap();
    assert_eq!(dict.get(b"Type").unwrap().as_name().unwrap().name(), b"Catalog");
    assert_eq!(doc.resolve_object(ObjectId::new(0, 65535)).err(), Some(PdfError::ObjectError));
    assert_eq!(doc.resolve_object(ObjectId::new(1, 1)).err(), Some(PdfError::ObjectError));
    let root = doc.ctx.get_root().unwrap();
    assert!(root.get(b"Pages").is_some());
}

#[test]
fn object_ids_are_ordered() {
    let mut doc = PdfDocument::from_bytes(small_pdf()).unwrap();
    assert_eq!(doc.ctx.object_ids(), vec![ObjectId::new(1, 0), ObjectId::new(2, 0)]);
    let id = doc.insert_object(PdfObject::PdfNull);
    assert_eq!(id, ObjectId::new(3, 0));
    assert_eq!(
        doc.ctx.serializable_object_ids(),
        vec![ObjectId::new(1, 0), ObjectId::new(2, 0), ObjectId::new(3, 0)]
    );
}

#[test]
fn inserted_object_survives_saving() {
    let mut doc = PdfDocument::from_bytes(small_pdf()).unwrap();
    let object_id = doc.insert_object(string_obj(b"hello"));
    assert_eq!(doc.resolve_object(object_id).unwrap(), string_obj(b"hello"));
    let bytes = doc.save_to_bytes().unwrap();
    let mut saved = PdfDocument::from_bytes(bytes).unwrap();
    assert_eq!(saved.resolve_object(object_id).unwrap(), string_obj(b"hello"));
}

#[test]
fn updated_object_is_seen_before_and_after_saving() {
    let mut doc = PdfDocument::from_bytes(small_pdf()).unwrap();
    let object_id = doc.insert_object(string_obj(b"before"));
    doc.update_object(object_id, string_obj(b"after")).unwrap();
    assert_eq!(doc.resolve_object(object_id).unwrap(), string_obj(b"after"));
    let pages = ObjectId::new(2, 0);
    doc.update_object(pages, PdfObject::PdfNumber(PdfNumber::new_from_lexeme(b"7"))).unwrap();
    let bytes = save_document(&mut doc).unwrap();
    let mut saved = PdfDocument::from_bytes(bytes).unwrap();
    assert_eq!(saved.resolve_object(object_id).unwrap(), string_obj(b"after"));
    assert_eq!(saved.resolve_object(pages).unwrap().as_number().unwrap().lexeme(), b"7");
}

#[test]
fn deleted_object_is_gone_before_and_after_saving() {
    let mut doc = PdfDocument::from_bytes(small_pdf()).unwrap();
    let object_id = doc.insert_object(string_obj(b"gone"));
    doc.delete_object(object_id).unwrap();
    assert_eq!(doc.resolve_object(object_id).err(), Some(PdfError::ObjectError));
    let bytes = doc.save_to_bytes().unwrap();
    let mut saved = PdfDocument::from_bytes(bytes).unwrap();
    assert!(saved.resolve_object(object_id).is_err());
    assert!(saved.resolve_object(ObjectId::new(1, 0)).is_ok());
}

#[test]
fn missing_objects_cannot_be_changed() {
    let mut doc = PdfDocument::from_bytes(small_pdf()).unwrap();
    assert_eq!(doc.update_object(ObjectId::new(9, 0), PdfObject::PdfNull), Err(PdfError::ObjectError));
    assert_eq!(doc.delete_object(ObjectId::new(9, 0)), Err(PdfError::ObjectError));
    assert_eq!(doc.delete_object(ObjectId::new(2, 0)), Ok(()));
    assert_eq!(doc.update_object(ObjectId::new(2, 0), PdfObject::PdfNull), Ok(()));
    assert_eq!(doc.resolve_object(ObjectId::new(2, 0)).unwrap(), PdfObject::PdfNull);
}

#[test]
fn saved_bytes_have_the_expected_layout() {
    let mut doc = PdfDocument::from_bytes(small_pdf()).unwrap();
    let bytes = doc.save_to_bytes().unwrap();
    let text = String::from_utf8(bytes.clone()).unwrap();
    assert!(text.starts_with("%PDF-1.7\n1 0 obj\n<<\n/Type /Catalog\n/Pages 2 0 R\n>>\nendobj\n"));
    assert!(text.contains("xref\n0 3\n0000000000 65535 f \n0000000009 00000 n \n"));
    assert!(text.contains("trailer\n<<\n/Size 3\n/Root 1 0 R\n>>\n"));
    assert!(!text.contains("/Prev"));
    assert!(text.ends_with("%%EOF\n"));
}

#[test]
fn stream_length_is_written_from_its_data() {
    let mut doc = PdfDocument::from_bytes(small_pdf()).unwrap();
    let mut dict = PdfDict::new();
    dict.insert(b"Length".to_vec(), PdfObject::PdfNumber(PdfNumber::new_from_lexeme(b"99")));
    dict.insert(b"Kind".to_vec(), PdfObject::PdfName(PdfName::new(b"Test".to_vec())));
    let id = doc.insert_object(PdfObject::PdfStream(PdfStream::new(dict, b"abc".to_vec())));
    let bytes = doc.save_to_bytes().unwrap();
    let text = String::from_utf8_lossy(&bytes).to_string();
    assert!(text.contains("3 0 obj\n<<\n/Length 3\n/Kind /Test\n>>\nstream\nabc\nendstream\nendobj\n"));
    let mut saved = PdfDocument::from_bytes(bytes).unwrap();
    let st = saved.resolve_object(id).unwrap().into_stream().unwrap();
    assert_eq!(st.raw_data(), b"abc");
}

#[test]
fn unreadable_object_stops_saving() {
    let mut pdf = small_pdf();
    let at = pdf.windows(7).position(|w| w == b"2 0 obj").unwrap();
    pdf[at] = b'x';
    let mut doc = PdfDocument::from_bytes(pdf).unwrap();
    assert!(doc.ctx.materialize_all_objects().is_err());
    assert!(doc.save_to_bytes().is_err());
}

#[test]
fn document_without_xref_is_refused() {
    assert!(PdfDocument::from_bytes(b"%PDF-1.7\n".to_vec()).is_err());
}

#[test]
fn object_for_write_reports_deletions() {
    let mut doc = PdfDocument::from_bytes(small_pdf()).unwrap();
    doc.delete_object(ObjectId::new(1, 0)).unwrap();
    assert_eq!(doc.ctx.object_for_write(ObjectId::new(1, 0)), Ok(None));
    assert!(doc.ctx.object_for_write(ObjectId::new(2, 0)).unwrap().is_some());
    assert_eq!(doc.ctx.object_for_write(ObjectId::new(5, 0)), Err(PdfError::ObjectError));
    assert!(doc.ctx.get_root().is_ok());
    assert_eq!(doc.ctx.get_root_owned(), Err(PdfError::ObjectError));
}

fn mixed_object() -> PdfObject {
    let mut inner = PdfDict::new();
    inner.insert(b"Flag".to_vec(), PdfObject::PdfBool(PdfBool::new(b"true")));
    inner.insert(b"Nothing".to_vec(), PdfObject::PdfNull);
    let mut arr = PdfArray::new();
    arr.add_obj(PdfObject::PdfNumber(PdfNumber::new_from_lexeme(b"0")));
    arr.add_obj(PdfObject::PdfNumber(PdfNumber::new_from_lexeme(b"-2.5")));
    arr.add_obj(PdfObject::PdfReference(PdfReference::new(1, 0)));
    arr.add_obj(PdfObject::PdfNumber(PdfNumber::new_from_lexeme(b"612")));
    arr.add_obj(PdfObject::PdfName(PdfName::new(b"Name".to_vec())));
    arr.add_obj(PdfObject::PdfString(PdfString::new(b"a(b)c".to_vec(), false)));
    arr.add_obj(PdfObject::PdfDict(inner));
    let mut dict = PdfDict::new();
    dict.insert(b"Items".to_vec(), PdfObject::PdfArray(arr));
    dict.insert(b"Hex".to_vec(), PdfObject::PdfString(PdfString::new(vec![0u8, 255u8], true)));
    dict.insert(b"Parent".to_vec(), PdfObject::PdfReference(PdfReference::new(2, 0)));
    PdfObject::PdfDict(dict)
}

#[test]
fn saved_objects_of_every_kind_read_back() {
    let mut doc = PdfDocument::from_bytes(small_pdf()).unwrap();
    let id = doc.insert_object(mixed_object());
    let bytes = doc.save_to_bytes().unwrap();
    let mut saved = PdfDocument::from_bytes(bytes).unwrap();
    let back = saved.resolve_object(id).unwrap();
    let dict = back.as_dict().unwrap();
    let items = dict.get(b"Items").unwrap().as_array().unwrap();
    assert_eq!(items.len(), 7);
    assert_eq!(items.get(0).unwrap().as_number().unwrap().lexeme(), b"0");
    assert_eq!(items.get(1).unwrap().as_number().unwrap().lexeme(), b"-2.5");
    assert_eq!(items.get(2).unwrap().as_reference().unwrap().id(), ObjectId::new(1, 0));
    assert_eq!(items.get(3).unwrap().as_number().unwrap().lexeme(), b"612");
    assert_eq!(items.get(4).unwrap().as_name().unwrap().name(), b"Name");
    assert_eq!(items.get(5).unwrap().as_string().unwrap().bytes(), b"a(b)c");
    let inner = items.get(6).unwrap().as_dict().unwrap();
    assert_eq!(inner.len(), 2);
    assert_eq!(inner.key_at(0), b"Flag");
    assert_eq!(inner.key_at(1), b"Nothing");
    assert_eq!(inner.value_at(1), &PdfObject::PdfNull);
    let hex = dict.get(b"Hex").unwrap().as_string().unwrap();
    assert_eq!(hex.bytes(), &[0u8, 255u8][..]);
    assert!(!hex.is_hex());
    assert_eq!(dict.get(b"Parent").unwrap().as_reference().unwrap().id(), ObjectId::new(2, 0));
    let catalog = saved.resolve_object(ObjectId::new(1, 0)).unwrap();
    assert_eq!(catalog.as_dict().unwrap().get(b"Type").unwrap().as_name().unwrap().name(), b"Catalog");
}

// The next three need only a document that opens; `small_pdf` gives one.

#[test]
fn test_insert_object_roundtrip() {
    let mut doc = PdfDocument::from_bytes(small_pdf()).unwrap();
    let object_id = doc.insert_object(PdfObject::PdfString(PdfString::new(b"hello".to_vec(), false)));
    let bytes = doc.save_to_bytes().unwrap();
    let mut saved = PdfDocument::from_bytes(bytes).unwrap();
    let object = saved.resolve_object(object_id).unwrap();
    assert_eq!(object, PdfObject::PdfString(PdfString::new(b"hello".to_vec(), false)));
}

#[test]
fn test_update_object_visible_before_save() {
    let mut doc = PdfDocument::from_bytes(small_pdf()).unwrap();
    let object_id = doc.insert_object(PdfObject::PdfString(PdfString::new(b"before".to_vec(), false)));
    doc.update_object(object_id, PdfObject::PdfString(PdfString::new(b"after".to_vec(), false)))
        .unwrap();
    let object = doc.resolve_object(object_id).unwrap();
    assert_eq!(object, PdfObject::PdfString(PdfString::new(b"after".to_vec(), false)));
}

#[test]
fn test_delete_object_visible_before_save() {
    let mut doc = PdfDocument::from_bytes(small_pdf()).unwrap();
    let object_id = doc.insert_object(PdfObject::PdfString(PdfString::new(b"gone".to_vec(), false)));
    doc.delete_object(object_id).unwrap();
    assert!(doc.resolve_object(object_id).is_err());
}

#[test]
fn saved_stream_reads_back_by_its_length() {
    let mut doc = PdfDocument::from_bytes(small_pdf()).unwrap();
    let mut dict = PdfDict::new();
    dict.insert(b"Kind".to_vec(), PdfObject::PdfName(PdfName::new(b"Test".to_vec())));
    let data = b"q\nendstream\nQ".to_vec();
    let id = doc.insert_object(PdfObject::PdfStream(PdfStream::new(dict, data.clone())));
    let bytes = doc.save_to_bytes().unwrap();
    let mut saved = PdfDocument::from_bytes(bytes).unwrap();
    let st = saved.resolve_object(id).unwrap().into_stream().unwrap();
    assert_eq!(st.raw_data(), &data[..]);
    assert_eq!(st.dict().len(), 2);
    assert_eq!(st.dict().key_at(0), b"Kind");
    assert_eq!(st.dict().get(b"Length").unwrap().as_number().unwrap().lexeme(), b"13");
}

#[test]
fn changes_keep_file_ids_and_list_changed_ids() {
    let mut doc = PdfDocument::from_bytes(small_pdf()).unwrap();
    let file_ids = doc.ctx.object_ids();
    let inserted = doc.insert_object(PdfObject::PdfNull);
    doc.update_object(ObjectId::new(1, 0), PdfObject::PdfNull).unwrap();
    doc.delete_object(inserted).unwrap();
    assert_eq!(doc.ctx.object_ids(), file_ids);
    assert_eq!(
        doc.ctx.serializable_object_ids(),
        vec![ObjectId::new(1, 0), ObjectId::new(2, 0), ObjectId::new(3, 0)]
    );
}
