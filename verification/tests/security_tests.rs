use rzpdf::error::PdfError;
use rzpdf::objects::{PdfArray, PdfDict, PdfName, PdfNumber, PdfObject};
use rzpdf::parser::security::{padd_password, CryptFilter, SecurityHandler};

const PAD: [u8; 32] = [
    0x28, 0xbf, 0x4e, 0x5e, 0x4e, 0x75, 0x8a, 0x41, 0x64, 0x00, 0x4e, 0x56, 0xff, 0xfa, 0x01, 0x08,
    0x2e, 0x2e, 0x00, 0xb6, 0xd0, 0x68, 0x3e, 0x80, 0x2f, 0x0c, 0xa9, 0xfe, 0x64, 0x53, 0x69, 0x7a,
];

#[test]
fn empty_password_is_the_pad() {
    assert_eq!(padd_password(b""), PAD);
}

#[test]
fn short_password_is_followed_by_the_pad() {
    let r = padd_password(b"abc");
    assert_eq!(&r[..3], b"abc");
    assert_eq!(&r[3..], &PAD[..29]);
}

#[test]
fn long_password_is_cut() {
    let pw: Vec<u8> = (0u8..40).collect();
    assert_eq!(padd_password(&pw).to_vec(), pw[..32].to_vec());
}

#[test]
fn crypt_filter_from_dictionary() {
    let mut cf = PdfDict::new();
    cf.insert(b"CFM".to_vec(), PdfObject::PdfName(PdfName::new(b"AESV2".to_vec())));
    cf.insert(b"Length".to_vec(), PdfObject::PdfNumber(PdfNumber::new_from_lexeme(b"16")));
    let f = CryptFilter::try_new(&cf).unwrap();
    assert_eq!(f.cfm, Some("AESV2".to_string()));
    assert_eq!(f.length, 16);
    let d = CryptFilter::try_new(&PdfDict::new()).unwrap();
    assert_eq!(d.cfm, None);
    assert_eq!(d.length, 0);
    let n = CryptFilter::new("V2".to_string(), 5);
    assert_eq!(n.cfm, Some("V2".to_string()));
}

#[test]
fn crypt_filter_length_saturates() {
    let mut cf = PdfDict::new();
    cf.insert(b"Length".to_vec(), PdfObject::PdfNumber(PdfNumber::new_from_lexeme(b"-4")));
    assert_eq!(CryptFilter::try_new(&cf).unwrap().length, 0);
    cf.insert(b"Length".to_vec(), PdfObject::PdfNumber(PdfNumber::new_from_lexeme(b"128.9")));
    assert_eq!(CryptFilter::try_new(&cf).unwrap().length, 128);
    cf.insert(b"Length".to_vec(), PdfObject::PdfNumber(PdfNumber::new_from_lexeme(b"99999999999")));
    assert_eq!(CryptFilter::try_new(&cf).unwrap().length, u32::MAX);
}

#[test]
fn crypt_filter_name_must_be_utf8() {
    let mut cf = PdfDict::new();
    cf.insert(b"CFM".to_vec(), PdfObject::PdfName(PdfName::new(vec![0xff])));
    assert_eq!(CryptFilter::try_new(&cf).err().unwrap(), PdfError::ParserError);
}

#[test]
fn security_handler_is_unsupported() {
    let r = SecurityHandler::try_new(&PdfDict::new(), PdfArray::new(), None);
    assert_eq!(r.err().unwrap(), PdfError::Unsupported);
}
