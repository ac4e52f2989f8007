use vstd::prelude::*;
use vstd::utf8::{valid_utf8, decode_utf8};
use crate::error::{PdfError, PdfResult};
use crate::objects::{Obj, PdfArray, PdfDict, copy_bytes, dict_get, number_u32_saturating};
use crate::parser::syntax::string_from_utf8;

verus! {

/// The bytes that pad a password to 32 bytes.
pub open spec fn password_pad() -> Seq<u8> {
    seq![
        0x28u8, 0xbfu8, 0x4eu8, 0x5eu8, 0x4eu8, 0x75u8, 0x8au8, 0x41u8, 0x64u8, 0x00u8, 0x4eu8,
        0x56u8, 0xffu8, 0xfau8, 0x01u8, 0x08u8, 0x2eu8, 0x2eu8, 0x00u8, 0xb6u8, 0xd0u8, 0x68u8,
        0x3eu8, 0x80u8, 0x2fu8, 0x0cu8, 0xa9u8, 0xfeu8, 0x64u8, 0x53u8, 0x69u8, 0x7au8,
    ]
}

/// A password padded to 32 bytes: its first 32 bytes, followed by as many
/// bytes of the pad as it lacks.
pub open spec fn spec_padded_password(password: Seq<u8>) -> Seq<u8> {
    if password.len() >= 32 {
        password.take(32)
    } else {
        password + password_pad().take(32 - password.len())
    }
}

/// Pads or cuts a password to 32 bytes.
pub fn padd_password(password: &[u8]) -> (r: [u8; 32])
    ensures
        r@ == spec_padded_password(password@),
{
    let pad: [u8; 32] = [
        0x28u8, 0xbfu8, 0x4eu8, 0x5eu8, 0x4eu8, 0x75u8, 0x8au8, 0x41u8, 0x64u8, 0x00u8, 0x4eu8,
        0x56u8, 0xffu8, 0xfau8, 0x01u8, 0x08u8, 0x2eu8, 0x2eu8, 0x00u8, 0xb6u8, 0xd0u8, 0x68u8,
        0x3eu8, 0x80u8, 0x2fu8, 0x0cu8, 0xa9u8, 0xfeu8, 0x64u8, 0x53u8, 0x69u8, 0x7au8,
    ];
    assert(pad@ =~= password_pad());
    let mut res: [u8; 32] = [0u8; 32];
    let mut i: usize = 0;
    while i < password.len() && i < 32
        invariant
            0 <= i <= 32,
            i <= password@.len(),
            res@.len() == 32,
            forall|j: int| 0 <= j < i ==> res@[j] == password@[j],
        decreases 32 - i,
    {
        res.set(i, password[i]);
        i = i + 1;
    }
    let pad_length = 32 - i;
    let mut j: usize = 0;
    while j < pad_length
        invariant
            0 <= j <= pad_length,
            pad_length == 32 - i,
            i <= 32,
            i <= password@.len(),
            i == password@.len() || i == 32,
            pad@ == password_pad(),
            res@.len() == 32,
            forall|m: int| 0 <= m < i ==> res@[m] == password@[m],
            forall|m: int| 0 <= m < j ==> res@[i + m] == pad@[m],
        decreases pad_length - j,
    {
        res.set(i + j, pad[j]);
        j = j + 1;
    }
    assert(res@ =~= spec_padded_password(password@));
    res
}

/// A crypt filter: its method and its key length.
#[derive(Debug)]
pub struct CryptFilter {
    pub cfm: Option<String>,
    pub length: u32,
}

impl Default for CryptFilter {
    fn default() -> (r: CryptFilter)
        ensures
            r.cfm is None,
            r.length == 0,
    {
        CryptFilter { cfm: None, length: 0 }
    }
}

/// `CFM`
pub open spec fn key_cfm() -> Seq<u8> {
    seq![67u8, 70u8, 77u8]
}

/// `Length`
pub open spec fn key_length() -> Seq<u8> {
    seq![76u8, 101u8, 110u8, 103u8, 116u8, 104u8]
}

impl CryptFilter {
    pub fn new(cfm: String, length: u32) -> (r: CryptFilter)
        ensures
            r.cfm == Some(cfm),
            r.length == length,
    {
        CryptFilter { cfm: Some(cfm), length }
    }

    /// The crypt filter that a dictionary describes: `CFM` must be a name and
    /// `Length` a number when they are there. A name that is not UTF-8 is refused.
    pub fn try_new(cf: &PdfDict) -> (r: PdfResult<CryptFilter>)
        requires
            dict_get(cf@, key_cfm()) matches Some(o) ==> o is Name,
            dict_get(cf@, key_length()) matches Some(o) ==> o is Number,
        ensures
            match dict_get(cf@, key_cfm()) {
                Some(Obj::Name(n)) => if valid_utf8(n) {
                    r matches Ok(f) && f.cfm matches Some(s) && s@ == decode_utf8(n)
                } else {
                    r == Err::<CryptFilter, PdfError>(PdfError::ParserError)
                },
                _ => r matches Ok(f) && f.cfm is None,
            },
            r matches Ok(f) ==> f.length == (match dict_get(cf@, key_length()) {
                Some(Obj::Number(lex)) => number_u32_saturating(lex),
                _ => 0,
            }),
    {
        let cfm_key: [u8; 3] = [67u8, 70u8, 77u8];
        let length_key: [u8; 6] = [76u8, 101u8, 110u8, 103u8, 116u8, 104u8];
        assert(cfm_key@ =~= key_cfm());
        assert(length_key@ =~= key_length());
        let mut filter = CryptFilter::default();
        match cf.get(&cfm_key) {
            Some(cfm) => {
                let name = cfm.as_name().unwrap();
                match string_from_utf8(copy_bytes(name.name())) {
                    Some(s) => {
                        filter.cfm = Some(s);
                    },
                    None => {
                        return Err(PdfError::ParserError);
                    },
                }
            },
            None => {},
        }
        match cf.get(&length_key) {
            Some(length) => {
                filter.length = length.as_number().unwrap().get_u32();
            },
            None => {},
        }
        Ok(filter)
    }
}

/// The standard security handler of an encrypted document.
#[derive(Debug)]
pub struct SecurityHandler {
    pub version: i32,
    pub rvision: i32,
    pub o: Vec<u8>,
    pub u: Vec<u8>,
    pub p: i32,
    pub oe: Vec<u8>,
    pub ue: Vec<u8>,
    pub stream_filter: CryptFilter,
    pub string_filter: CryptFilter,
    pub length: u32,
    pub id1: Vec<u8>,
    pub encrypt_metadata: bool,
    pub key: Option<Vec<u8>>,
}

impl SecurityHandler {
    /// Encrypted documents are not handled: every request is answered
    /// `Unsupported`.
    pub fn try_new(encrypt: &PdfDict, ids: PdfArray, password: Option<&[u8]>) -> (r: PdfResult<
        SecurityHandler,
    >)
        ensures
            r == Err::<SecurityHandler, PdfError>(PdfError::Unsupported),
    {
        Err(PdfError::Unsupported)
    }
}

} // verus!
