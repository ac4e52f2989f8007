use vstd::prelude::*;
use crate::cross_ref_table::{CrossRefTable, ObjectInfo, ObjectState};
use crate::error::{PdfError, PdfResult};
use crate::objects::{
    Obj, PdfArray, PdfBool, PdfDict, PdfIndirect, PdfName, PdfNumber, PdfObject, PdfReference,
    PdfStream, PdfString, bytes_eq, copy_bytes, is_number_token,
};
use crate::parser::character::{is_delimiter, is_end_of_line, is_hex_digit, is_white_space};
use crate::parser::parse_utility::{hex_to_u8, lemma_hex_value_of_digits, parse_unsigned};
use crate::parser::syntax_spec::{
    after_find, after_line, after_optional_eol, end_pos, find_tag, header_prefix, hex_body,
    high_bit_count, kw_dict_close, kw_dict_open, kw_endobj, kw_endstream, kw_false, kw_null, kw_obj,
    kw_r, kw_stream, kw_true, lemma_consume_stream_start, lemma_find_tag, lemma_get_object_pos,
    lemma_line_end, lemma_next_word, lemma_scan_regular, lemma_skip_ws, line_bytes, line_end,
    obj_result_matches, rem, sat_sub, scan_regular, skip_ws, spec_array_items,
    spec_binary_comment_ok, spec_consume_stream_start, spec_dict_body, spec_dict_end,
    spec_eol_marker, spec_expect_endstream, spec_find_stream_end, spec_get_indirect,
    spec_get_object, spec_next_word, spec_parse_header, spec_read_header, spec_read_stream,
    spec_resolve_length, spec_word_unsigned, str_body, tag_at, xflag,
};
use vstd::utf8::{decode_utf8, valid_utf8};
pub use crate::parser::syntax_spec::ParseMode;

verus! {

/// The header line of a PDF file: its version.
#[derive(Debug, Clone, PartialEq, Eq)]
pub struct PdfHeader {
    pub version: Vec<u8>,
}

impl PdfHeader {
    /// The version, such as `1.7`.
    pub fn version(&self) -> (r: &[u8])
        ensures
            r@ == self.version@,
    {
        self.version.as_slice()
    }
}

/// A word read by the syntax parser, and whether it follows the number grammar.
#[derive(Debug, Default)]
pub struct PdfWord {
    pub raw: Vec<u8>,
    pub is_number: bool,
}

/// Calls `String::from_utf8`: the result is there exactly when the bytes are
/// valid UTF-8, and then holds the characters that they encode.
#[verifier::external_body]
pub(crate) fn string_from_utf8(bytes: Vec<u8>) -> (r: Option<String>)
    ensures
        r is Some <==> valid_utf8(bytes@),
        r matches Some(s) ==> s@ == decode_utf8(bytes@),
{
    String::from_utf8(bytes).ok()
}

impl PdfWord {
    /// The word as text; it must be valid UTF-8.
    pub fn into_string(self) -> (r: PdfResult<String>)
        ensures
            valid_utf8(self.raw@) ==> (r matches Ok(s) && s@ == decode_utf8(self.raw@)),
            !valid_utf8(self.raw@) ==> r == Err::<String, PdfError>(PdfError::ParserError),
    {
        match string_from_utf8(self.raw) {
            Some(s) => Ok(s),
            None => Err(PdfError::ParserError),
        }
    }

    pub fn new() -> (r: PdfWord)
        ensures
            r.raw@ == Seq::<u8>::empty(),
            !r.is_number,
    {
        PdfWord { raw: Vec::new(), is_number: false }
    }

    pub fn add_char(&mut self, c: u8)
        ensures
            final(self).raw@ == old(self).raw@.push(c),
            final(self).is_number == old(self).is_number,
    {
        self.raw.push(c);
    }

    pub fn is_empty(&self) -> (r: bool)
        ensures
            r == (self.raw@.len() == 0),
    {
        self.raw.len() == 0
    }

    pub fn raw(&self) -> (r: &[u8])
        ensures
            r@ == self.raw@,
    {
        self.raw.as_slice()
    }

    pub fn is_number(&self) -> (r: bool)
        ensures
            r == self.is_number,
    {
        self.is_number
    }

    pub fn is_equal(&self, s: &[u8]) -> (r: bool)
        ensures
            r == (self.raw@ == s@),
    {
        let r = bytes_eq(self.raw.as_slice(), s);
        proof {
            if r {
                assert(self.raw@ =~= s@);
            }
        }
        r
    }

    /// Whether the word starts with `prefix`.
    pub fn start_width(&self, prefix: &[u8]) -> (r: bool)
        ensures
            r == (prefix@.len() <= self.raw@.len() && self.raw@.take(prefix@.len() as int)
                == prefix@),
    {
        if prefix.len() > self.raw.len() {
            return false;
        }
        let mut i: usize = 0;
        while i < prefix.len()
            invariant
                prefix@.len() <= self.raw@.len(),
                0 <= i <= prefix@.len(),
                forall|j: int| 0 <= j < i ==> prefix@[j] == self.raw@[j],
            decreases prefix.len() - i,
        {
            if prefix[i] != self.raw[i] {
                proof {
                    assert(self.raw@.take(prefix@.len() as int)[i as int] != prefix@[i as int]);
                }
                return false;
            }
            i = i + 1;
        }
        assert(self.raw@.take(prefix@.len() as int) =~= prefix@);
        true
    }

    fn as_unsigned(&self, max: u64) -> (r: PdfResult<u64>)
        ensures
            match spec_word_unsigned(self.raw@, self.is_number, max as nat) {
                Ok(v) => r == Ok::<u64, PdfError>(v as u64),
                Err(e) => r == Err::<u64, PdfError>(e),
            },
    {
        if !self.is_number {
            return Err(PdfError::ParserError);
        }
        match parse_unsigned(self.raw.as_slice(), max) {
            Some(v) => Ok(v),
            None => Err(PdfError::ParserError),
        }
    }

    /// The value of a number word as `str::parse::<u64>` reads it.
    pub fn as_u64_checked(&self) -> (r: PdfResult<u64>)
        ensures
            match spec_word_unsigned(self.raw@, self.is_number, u64::MAX as nat) {
                Ok(v) => r == Ok::<u64, PdfError>(v as u64),
                Err(e) => r == Err::<u64, PdfError>(e),
            },
    {
        self.as_unsigned(u64::MAX)
    }

    /// The value of a number word as `str::parse::<u32>` reads it.
    pub fn as_u32_checked(&self) -> (r: PdfResult<u32>)
        ensures
            match spec_word_unsigned(self.raw@, self.is_number, u32::MAX as nat) {
                Ok(v) => r == Ok::<u32, PdfError>(v as u32),
                Err(e) => r == Err::<u32, PdfError>(e),
            },
    {
        match self.as_unsigned(u32::MAX as u64) {
            Ok(v) => Ok(v as u32),
            Err(e) => Err(e),
        }
    }

    /// The value of a number word as `str::parse::<u16>` reads it.
    pub fn as_u16_checked(&self) -> (r: PdfResult<u16>)
        ensures
            match spec_word_unsigned(self.raw@, self.is_number, u16::MAX as nat) {
                Ok(v) => r == Ok::<u16, PdfError>(v as u16),
                Err(e) => r == Err::<u16, PdfError>(e),
            },
    {
        match self.as_unsigned(u16::MAX as u64) {
            Ok(v) => Ok(v as u16),
            Err(e) => Err(e),
        }
    }

    /// The value of a number word; the word must be a `u64`.
    pub fn as_u64(&self) -> (r: u64)
        requires
            spec_word_unsigned(self.raw@, self.is_number, u64::MAX as nat) is Ok,
        ensures
            spec_word_unsigned(self.raw@, self.is_number, u64::MAX as nat) == Ok::<nat, PdfError>(
                r as nat,
            ),
    {
        match self.as_u64_checked() {
            Ok(v) => v,
            Err(_) => 0,
        }
    }

    /// The value of a number word; the word must be a `u32`.
    pub fn as_u32(&self) -> (r: u32)
        requires
            spec_word_unsigned(self.raw@, self.is_number, u32::MAX as nat) is Ok,
        ensures
            spec_word_unsigned(self.raw@, self.is_number, u32::MAX as nat) == Ok::<nat, PdfError>(
                r as nat,
            ),
    {
        match self.as_u32_checked() {
            Ok(v) => v,
            Err(_) => 0,
        }
    }

    /// The value of a number word; the word must be a `u16`.
    pub fn as_u16(&self) -> (r: u16)
        requires
            spec_word_unsigned(self.raw@, self.is_number, u16::MAX as nat) is Ok,
        ensures
            spec_word_unsigned(self.raw@, self.is_number, u16::MAX as nat) == Ok::<nat, PdfError>(
                r as nat,
            ),
    {
        match self.as_u16_checked() {
            Ok(v) => v,
            Err(_) => 0,
        }
    }
}

/// A parser for the PDF syntax over the bytes of a file, with a current position.
#[derive(Debug)]
pub struct SyntaxParser {
    pub pos: u64,
    pub data: Vec<u8>,
    pub mode: ParseMode,
    pub header: Option<PdfHeader>,
    pub xref_table: Option<CrossRefTable>,
}

impl SyntaxParser {
    /// Everything but the position is the same in both parsers.
    pub open spec fn same_input(&self, other: &SyntaxParser) -> bool {
        &&& self.data == other.data
        &&& self.mode == other.mode
        &&& self.header == other.header
        &&& self.xref_table == other.xref_table
    }

    /// The cross-reference entries that the parser resolves references with.
    pub open spec fn xref_spec(&self) -> Option<Seq<ObjectInfo>> {
        match self.xref_table {
            Some(t) => Some(t.entries@),
            None => None,
        }
    }

    pub fn new(data: Vec<u8>) -> (r: SyntaxParser)
        ensures
            r.data@ == data@,
            r.pos == 0,
            r.mode == ParseMode::Compatible,
            r.header is None,
            r.xref_table is None,
    {
        Self::with_mode(data, ParseMode::Compatible)
    }

    pub fn with_mode(data: Vec<u8>, mode: ParseMode) -> (r: SyntaxParser)
        ensures
            r.data@ == data@,
            r.pos == 0,
            r.mode == mode,
            r.header is None,
            r.xref_table is None,
    {
        SyntaxParser { pos: 0, data, mode, header: None, xref_table: None }
    }

    pub fn with_xref_table(self, xref_table: CrossRefTable) -> (r: SyntaxParser)
        ensures
            r.data == self.data,
            r.pos == self.pos,
            r.mode == self.mode,
            r.header == self.header,
            r.xref_table == Some(xref_table),
    {
        let mut s = self;
        s.xref_table = Some(xref_table);
        s
    }

    pub fn is_eof(&self) -> (r: bool)
        ensures
            r == (self.pos >= self.data@.len()),
    {
        self.pos >= self.data.len() as u64
    }

    pub fn position(&self) -> (r: u64)
        ensures
            r == self.pos,
    {
        self.pos
    }

    pub fn mode(&self) -> (r: ParseMode)
        ensures
            r == self.mode,
    {
        self.mode
    }

    pub fn file_size(&self) -> (r: u64)
        ensures
            r == self.data@.len(),
    {
        self.data.len() as u64
    }

    /// Moves to a position; any position is accepted.
    pub fn set_pos(&mut self, pos: u64) -> (r: PdfResult<()>)
        ensures
            final(self).pos == pos,
            final(self).same_input(old(self)),
            r is Ok,
    {
        self.pos = pos;
        Ok(())
    }

    /// The byte at the position, which moves past it.
    pub fn get_next_char(&mut self) -> (r: PdfResult<u8>)
        ensures
            final(self).same_input(old(self)),
            old(self).pos < old(self).data@.len() ==> r == Ok::<u8, PdfError>(
                old(self).data@[old(self).pos as int],
            ) && final(self).pos == old(self).pos + 1,
            old(self).pos >= old(self).data@.len() ==> r == Err::<u8, PdfError>(
                PdfError::EndofFile,
            ) && final(self).pos == old(self).pos,
    {
        if self.pos >= self.data.len() as u64 {
            return Err(PdfError::EndofFile);
        }
        let b = self.data[self.pos as usize];
        self.pos = self.pos + 1;
        Ok(b)
    }

    /// The byte at a position, without moving.
    fn peek_char_at(&self, pos: u64) -> (r: PdfResult<u8>)
        ensures
            pos < self.data@.len() ==> r == Ok::<u8, PdfError>(self.data@[pos as int]),
            pos >= self.data@.len() ==> r == Err::<u8, PdfError>(PdfError::EndofFile),
    {
        if pos >= self.data.len() as u64 {
            return Err(PdfError::EndofFile);
        }
        Ok(self.data[pos as usize])
    }

    /// Moves past white space and comments to the start of the next word.
    fn to_next_word(&mut self) -> (r: PdfResult<()>)
        ensures
            final(self).same_input(old(self)),
            match skip_ws(old(self).data@, old(self).pos as int, false) {
                Some(q) => r is Ok && final(self).pos == q,
                None => r == Err::<(), PdfError>(PdfError::EndofFile) && final(self).pos
                    == end_pos(old(self).data@, old(self).pos as int),
            },
    {
        let ghost d = self.data@;
        let ghost p0 = self.pos as int;
        let mut in_comment = false;
        if self.pos >= self.data.len() as u64 {
            return Err(PdfError::EndofFile);
        }
        while self.pos < self.data.len() as u64
            invariant
                self.same_input(old(self)),
                p0 == old(self).pos as int,
                d == self.data@,
                p0 <= self.pos <= d.len(),
                skip_ws(d, p0, false) == skip_ws(d, self.pos as int, in_comment),
                p0 < d.len(),
            decreases self.data@.len() - self.pos,
        {
            let c = self.data[self.pos as usize];
            if in_comment {
                in_comment = !is_end_of_line(c);
            } else if is_white_space(c) {
            } else if c == 37u8 {
                in_comment = true;
            } else {
                assert(skip_ws(d, self.pos as int, in_comment) == Some(self.pos as int));
                return Ok(());
            }
            self.pos = self.pos + 1;
        }
        Err(PdfError::EndofFile)
    }

    /// The end of the run of regular bytes from the position, which moves there.
    fn scan_regular_run(&mut self, word: &mut PdfWord)
        requires
            old(self).pos <= old(self).data@.len(),
        ensures
            final(self).same_input(old(self)),
            final(self).pos == scan_regular(old(self).data@, old(self).pos as int),
            final(word).raw@ == old(word).raw@ + old(self).data@.subrange(
                old(self).pos as int,
                final(self).pos as int,
            ),
            final(word).is_number == old(word).is_number,
    {
        let ghost p0 = self.pos as int;
        let ghost w0 = word.raw@;
        proof {
            lemma_scan_regular(self.data@, p0);
        }
        while self.pos < self.data.len() as u64 && !is_delimiter(self.data[self.pos as usize])
            && !is_white_space(self.data[self.pos as usize])
            invariant
                self.same_input(old(self)),
                p0 == old(self).pos as int,
                p0 <= self.pos <= self.data@.len(),
                scan_regular(self.data@, p0) == scan_regular(self.data@, self.pos as int),
                word.raw@ == w0 + self.data@.subrange(p0, self.pos as int),
                word.is_number == old(word).is_number,
            decreases self.data@.len() - self.pos,
        {
            let c = self.data[self.pos as usize];
            proof {
                assert(self.data@.subrange(p0, self.pos + 1) =~= self.data@.subrange(
                    p0,
                    self.pos as int,
                ).push(c));
            }
            word.add_char(c);
            self.pos = self.pos + 1;
        }
    }

    /// Reads the next word.
    pub fn get_next_word(&mut self) -> (r: PdfResult<PdfWord>)
        ensures
            final(self).same_input(old(self)),
            final(self).pos == spec_next_word(old(self).data@, old(self).pos as int).0,
            match spec_next_word(old(self).data@, old(self).pos as int).1 {
                Ok((raw, isnum)) => r matches Ok(w) && w.raw@ == raw && w.is_number == isnum,
                Err(e) => r == Err::<PdfWord, PdfError>(e),
            },
    {
        let ghost d = self.data@;
        let ghost p0 = self.pos as int;
        proof {
            lemma_skip_ws(d, p0, false);
        }
        match self.to_next_word() {
            Ok(_) => {},
            Err(e) => {
                return Err(e);
            },
        }
        assert(skip_ws(d, p0, false) == Some(self.pos as int));
        let q = self.pos;
        let dlen = self.data.len();
        assert(q < dlen);
        let mut word = PdfWord::new();
        let c = self.data[q as usize];
        self.pos = q + 1;
        word.add_char(c);
        proof {
            lemma_scan_regular(d, q + 1);
            assert(word.raw@ =~= d.subrange(q as int, q + 1));
        }
        if is_delimiter(c) {
            if c == 47u8 {
                self.scan_regular_run(&mut word);
                proof {
                    assert(word.raw@ =~= d.subrange(q as int, self.pos as int));
                }
            } else if c == 60u8 || c == 62u8 {
                if self.pos >= self.data.len() as u64 {
                    return Err(PdfError::EndofFile);
                }
                let c2 = self.data[self.pos as usize];
                if c2 == c {
                    word.add_char(c2);
                    self.pos = self.pos + 1;
                }
            }
            return Ok(word);
        }
        self.scan_regular_run(&mut word);
        proof {
            assert(word.raw@ =~= d.subrange(q as int, self.pos as int));
        }
        word.is_number = is_number_token(word.raw.as_slice());
        Ok(word)
    }

    /// The next word, without moving.
    pub fn peek_word(&mut self) -> (r: PdfResult<PdfWord>)
        ensures
            final(self).same_input(old(self)),
            final(self).pos == old(self).pos,
            match spec_next_word(old(self).data@, old(self).pos as int).1 {
                Ok((raw, isnum)) => r matches Ok(w) && w.raw@ == raw && w.is_number == isnum,
                Err(e) => r == Err::<PdfWord, PdfError>(e),
            },
    {
        let saved_pos = self.pos;
        let word = self.get_next_word();
        self.pos = saved_pos;
        word
    }

    /// Reads the rest of the line, and moves past its end-of-line marker.
    pub fn read_line(&mut self) -> (r: PdfResult<Vec<u8>>)
        ensures
            final(self).same_input(old(self)),
            final(self).pos == after_line(old(self).data@, old(self).pos as int),
            r matches Ok(line) && line@ == line_bytes(old(self).data@, old(self).pos as int),
    {
        let ghost d = self.data@;
        let ghost p0 = self.pos as int;
        let mut line: Vec<u8> = Vec::new();
        if self.pos >= self.data.len() as u64 {
            return Ok(line);
        }
        proof {
            lemma_line_end(d, p0);
        }
        while self.pos < self.data.len() as u64 && !is_end_of_line(self.data[self.pos as usize])
            invariant
                self.same_input(old(self)),
                p0 == old(self).pos as int,
                d == self.data@,
                p0 <= self.pos <= d.len(),
                p0 < d.len(),
                line_end(d, p0) == line_end(d, self.pos as int),
                line@ == d.subrange(p0, self.pos as int),
            decreases d.len() - self.pos,
        {
            let c = self.data[self.pos as usize];
            proof {
                assert(d.subrange(p0, self.pos + 1) =~= d.subrange(p0, self.pos as int).push(c));
            }
            line.push(c);
            self.pos = self.pos + 1;
        }
        if self.pos < self.data.len() as u64 {
            let c = self.data[self.pos as usize];
            self.pos = self.pos + 1;
            if c == 13u8 && self.pos < self.data.len() as u64 && self.data[self.pos as usize]
                == 10u8 {
                self.pos = self.pos + 1;
            }
        }
        Ok(line)
    }

    /// Moves past the rest of the line and its end-of-line marker.
    fn to_next_line(&mut self) -> (r: PdfResult<()>)
        ensures
            final(self).same_input(old(self)),
            final(self).pos == after_line(old(self).data@, old(self).pos as int),
            r == Ok::<(), PdfError>(()),
    {
        let _ = self.read_line();
        Ok(())
    }

    /// The size of the end-of-line marker that ends two bytes after `pos`.
    pub fn read_eol_marker(&self, pos: u64) -> (r: PdfResult<u64>)
        ensures
            match crate::parser::syntax_spec::spec_eol_marker(self.data@, pos as int) {
                Ok(m) => r == Ok::<u64, PdfError>(m as u64),
                Err(e) => r == Err::<u64, PdfError>(e),
            },
    {
        let byte1 = match self.peek_char_at(pos) {
            Ok(b) => b,
            Err(e) => {
                return Err(e);
            },
        };
        let dlen = self.data.len();
        assert(pos < dlen);
        let byte2 = match self.peek_char_at(pos + 1) {
            Ok(b) => b,
            Err(e) => {
                return Err(e);
            },
        };
        if byte1 == 13u8 && byte2 == 10u8 {
            return Ok(2);
        }
        if byte1 == 13u8 || byte1 == 10u8 {
            return Ok(1);
        }
        Ok(0)
    }

    /// Reads a hexadecimal string after its `<`.
    fn read_hex_string(&mut self) -> (r: PdfResult<Vec<u8>>)
        ensures
            final(self).same_input(old(self)),
            final(self).pos == hex_body(old(self).data@, old(self).pos as int, None, Seq::empty()).0,
            match hex_body(old(self).data@, old(self).pos as int, None, Seq::empty()).1 {
                Ok(b) => r matches Ok(v) && v@ == b,
                Err(e) => r == Err::<Vec<u8>, PdfError>(e),
            },
    {
        let ghost d = self.data@;
        let ghost p0 = self.pos as int;
        let mut bytes: Vec<u8> = Vec::new();
        let mut high: Option<u8> = None;
        loop
            invariant
                self.same_input(old(self)),
                p0 == old(self).pos as int,
                d == self.data@,
                hex_body(d, p0, None, Seq::empty()) == hex_body(d, self.pos as int, high, bytes@),
                high matches Some(h) ==> h < 16,
            decreases rem(d, self.pos as int),
        {
            if self.pos >= self.data.len() as u64 {
                return Err(PdfError::EndofFile);
            }
            let ch = self.data[self.pos as usize];
            self.pos = self.pos + 1;
            if ch == 62u8 {
                match high {
                    Some(h) => {
                        bytes.push(h * 16);
                    },
                    None => {},
                }
                return Ok(bytes);
            } else if is_white_space(ch) {
            } else if is_hex_digit(ch) {
                proof {
                    lemma_hex_value_of_digits(ch);
                }
                let nibble = hex_to_u8(ch);
                match high {
                    Some(h) => {
                        bytes.push(h * 16 + nibble);
                        high = None;
                    },
                    None => {
                        high = Some(nibble);
                    },
                }
            } else {
                return Err(PdfError::ParserError);
            }
        }
    }

    /// Reads a literal string after its `(`.
    fn read_string(&mut self) -> (r: PdfResult<Vec<u8>>)
        ensures
            final(self).same_input(old(self)),
            final(self).pos == str_body(old(self).data@, old(self).pos as int, 0, Seq::empty()).0,
            match str_body(old(self).data@, old(self).pos as int, 0, Seq::empty()).1 {
                Ok(b) => r matches Ok(v) && v@ == b,
                Err(e) => r == Err::<Vec<u8>, PdfError>(e),
            },
    {
        let ghost d = self.data@;
        let ghost p0 = self.pos as int;
        let mut bytes: Vec<u8> = Vec::new();
        let mut nest: u64 = 0;
        loop
            invariant
                self.same_input(old(self)),
                p0 == old(self).pos as int,
                d == self.data@,
                str_body(d, p0, 0, Seq::empty()) == str_body(d, self.pos as int, nest as nat, bytes@),
                nest <= self.pos,
            decreases rem(d, self.pos as int),
        {
            if self.pos >= self.data.len() as u64 {
                return Err(PdfError::EndofFile);
            }
            let ch = self.data[self.pos as usize];
            self.pos = self.pos + 1;
            if ch == 40u8 {
                nest = nest + 1;
                bytes.push(ch);
            } else if ch == 41u8 {
                if nest == 0 {
                    return Ok(bytes);
                }
                nest = nest - 1;
                bytes.push(ch);
            } else if ch == 92u8 {
                if self.pos >= self.data.len() as u64 {
                    return Err(PdfError::EndofFile);
                }
                let e = self.data[self.pos as usize];
                self.pos = self.pos + 1;
                if e == 10u8 {
                } else if e == 13u8 {
                    if self.pos < self.data.len() as u64 && self.data[self.pos as usize] == 10u8 {
                        self.pos = self.pos + 1;
                    }
                } else if 48u8 <= e && e <= 55u8 {
                    let mut v: u64 = (e - 48u8) as u64;
                    if self.pos < self.data.len() as u64 && 48u8 <= self.data[self.pos as usize]
                        && self.data[self.pos as usize] <= 55u8 {
                        v = v * 8 + (self.data[self.pos as usize] - 48u8) as u64;
                        self.pos = self.pos + 1;
                        if self.pos < self.data.len() as u64 && 48u8 <= self.data[self.pos as usize]
                            && self.data[self.pos as usize] <= 55u8 {
                            v = v * 8 + (self.data[self.pos as usize] - 48u8) as u64;
                            self.pos = self.pos + 1;
                        }
                    }
                    if v > 255 {
                        return Err(PdfError::ParserError);
                    }
                    bytes.push(v as u8);
                } else if e == 110u8 {
                    bytes.push(10u8);
                } else if e == 114u8 {
                    bytes.push(13u8);
                } else if e == 116u8 {
                    bytes.push(9u8);
                } else if e == 98u8 {
                    bytes.push(8u8);
                } else if e == 102u8 {
                    bytes.push(12u8);
                } else {
                    bytes.push(e);
                }
            } else {
                bytes.push(ch);
            }
        }
    }
}


impl SyntaxParser {
    /// Moves past the end of line after the `stream` keyword.
    fn consume_stream_start(&mut self) -> (r: PdfResult<()>)
        ensures
            final(self).same_input(old(self)),
            final(self).pos == spec_consume_stream_start(
                old(self).data@,
                old(self).pos as int,
                old(self).mode,
            ).0,
            r == spec_consume_stream_start(old(self).data@, old(self).pos as int, old(self).mode).1,
    {
        if self.pos >= self.data.len() as u64 {
            return Err(PdfError::EndofFile);
        }
        let next = self.data[self.pos as usize];
        if next == 10u8 || next == 13u8 {
            self.consume_optional_single_eol()
        } else if self.mode == ParseMode::Compatible {
            self.to_next_line()
        } else {
            self.pos = self.pos + 1;
            Err(PdfError::ParserError)
        }
    }

    /// Moves past one end-of-line marker, if there is one at the position.
    fn consume_optional_single_eol(&mut self) -> (r: PdfResult<()>)
        ensures
            final(self).same_input(old(self)),
            final(self).pos == after_optional_eol(old(self).data@, old(self).pos as int),
            r == Ok::<(), PdfError>(()),
    {
        if self.pos >= self.data.len() as u64 {
            return Ok(());
        }
        let next = self.data[self.pos as usize];
        if next == 10u8 {
            self.pos = self.pos + 1;
        } else if next == 13u8 {
            self.pos = self.pos + 1;
            if self.pos < self.data.len() as u64 && self.data[self.pos as usize] == 10u8 {
                self.pos = self.pos + 1;
            }
        }
        Ok(())
    }

    /// Whether `endstream` follows at the position.
    fn expect_endstream_after_data(&mut self) -> (r: PdfResult<bool>)
        ensures
            final(self).same_input(old(self)),
            final(self).pos == spec_expect_endstream(old(self).data@, old(self).pos as int).0,
            r == spec_expect_endstream(old(self).data@, old(self).pos as int).1,
    {
        let kw: [u8; 9] = [101u8, 110u8, 100u8, 115u8, 116u8, 114u8, 101u8, 97u8, 109u8];
        assert(kw@ =~= kw_endstream());
        let saved_pos = self.pos;
        let _ = self.consume_optional_single_eol();
        let w = match self.get_next_word() {
            Ok(w) => w,
            Err(e) => {
                return Err(e);
            },
        };
        if w.is_equal(&kw) {
            return Ok(true);
        }
        self.pos = saved_pos;
        let w2 = match self.get_next_word() {
            Ok(w) => w,
            Err(e) => {
                return Err(e);
            },
        };
        if w2.is_equal(&kw) {
            return Ok(true);
        }
        self.pos = saved_pos;
        Ok(false)
    }

    /// Searches for `tag` from the position; when found, the position is kept,
    /// else it moves to the end of the data.
    fn find_word_pos(&mut self, tag: &[u8]) -> (r: PdfResult<Option<u64>>)
        ensures
            final(self).same_input(old(self)),
            final(self).pos == after_find(old(self).data@, old(self).pos as int, tag@),
            match find_tag(old(self).data@, old(self).pos as int, tag@) {
                Some(i) => r == Ok::<Option<u64>, PdfError>(Some(i as u64)),
                None => r == Ok::<Option<u64>, PdfError>(None),
            },
    {
        let ghost d = self.data@;
        let ghost p0 = self.pos as int;
        let dlen = self.data.len();
        if self.pos > dlen as u64 {
            return Ok(None);
        }
        let mut start: usize = self.pos as usize;
        while start < dlen && tag.len() <= dlen - start
            invariant
                d == self.data@,
                dlen == d.len(),
                p0 <= start <= d.len(),
                find_tag(d, p0, tag@) == find_tag(d, start as int, tag@),
                self.same_input(old(self)),
                self.pos == old(self).pos,
                p0 == old(self).pos as int,
            decreases dlen - start,
        {
            let mut i: usize = 0;
            let mut matched = true;
            while i < tag.len()
                invariant
                    start + tag@.len() <= d.len(),
                    d.len() == dlen,
                    d == self.data@,
                    0 <= i <= tag@.len(),
                    matched ==> forall|j: int| 0 <= j < i ==> d[start + j] == tag@[j],
                    !matched ==> !tag_at(d, start as int, tag@),
                decreases tag.len() - i,
            {
                if self.data[start + i] != tag[i] {
                    proof {
                        assert(d.subrange(start as int, start + tag@.len())[i as int] != tag@[i as int]);
                    }
                    matched = false;
                }
                i = i + 1;
            }
            if matched {
                proof {
                    assert(d.subrange(start as int, start + tag@.len()) =~= tag@);
                }
                return Ok(Some(start as u64));
            }
            start = start + 1;
        }
        proof {
            if start + tag@.len() <= d.len() {
                assert(start == d.len());
                if tag@.len() == 0 {
                    assert(d.subrange(start as int, start as int) =~= tag@);
                }
            }
        }
        if tag.len() <= dlen - start && tag.len() == 0 {
            return Ok(Some(start as u64));
        }
        self.pos = dlen as u64;
        Ok(None)
    }
}


impl SyntaxParser {
    /// Reads `len` bytes at the position, which moves past them.
    fn read_block(&mut self, len: u64) -> (r: PdfResult<Vec<u8>>)
        ensures
            final(self).same_input(old(self)),
            old(self).pos + len <= old(self).data@.len() ==> (r matches Ok(v) && v@
                == old(self).data@.subrange(old(self).pos as int, old(self).pos + len)
                && final(self).pos == old(self).pos + len),
            old(self).pos + len > old(self).data@.len() ==> r == Err::<Vec<u8>, PdfError>(
                PdfError::ParserError,
            ) && final(self).pos == old(self).pos,
    {
        let dlen = self.data.len() as u64;
        if self.pos > dlen || len > dlen - self.pos {
            return Err(PdfError::ParserError);
        }
        let start = self.pos as usize;
        let end = (self.pos + len) as usize;
        let mut out: Vec<u8> = Vec::new();
        let mut i: usize = start;
        while i < end
            invariant
                start <= i <= end,
                end <= self.data@.len(),
                out@ =~= self.data@.subrange(start as int, i as int),
            decreases end - i,
        {
            out.push(self.data[i]);
            i = i + 1;
        }
        self.pos = self.pos + len;
        Ok(out)
    }

    /// The end of the stream data found by searching for `endstream` or `endobj`.
    fn find_stream_end_pos(&mut self) -> (r: PdfResult<Option<u64>>)
        ensures
            final(self).same_input(old(self)),
            final(self).pos == spec_find_stream_end(old(self).data@, old(self).pos as int).0,
            match spec_find_stream_end(old(self).data@, old(self).pos as int).1 {
                Ok(Some(e)) => r == Ok::<Option<u64>, PdfError>(Some(e as u64)),
                Ok(None) => r == Ok::<Option<u64>, PdfError>(None),
                Err(e) => r == Err::<Option<u64>, PdfError>(e),
            },
    {
        let kws: [u8; 9] = [101u8, 110u8, 100u8, 115u8, 116u8, 114u8, 101u8, 97u8, 109u8];
        let kwo: [u8; 6] = [101u8, 110u8, 100u8, 111u8, 98u8, 106u8];
        assert(kws@ =~= kw_endstream());
        assert(kwo@ =~= kw_endobj());
        let dlen = self.data.len();
        proof {
            let d = self.data@;
            let p = self.pos as int;
            assert(d.len() == dlen);
            lemma_find_tag(d, p, kw_endstream());
            lemma_find_tag(d, after_find(d, p, kw_endstream()), kw_endobj());
        }
        let s = match self.find_word_pos(&kws) {
            Ok(v) => v,
            Err(e) => {
                return Err(e);
            },
        };
        let o = match self.find_word_pos(&kwo) {
            Ok(v) => v,
            Err(e) => {
                return Err(e);
            },
        };
        let e = match s {
            Some(e) => e,
            None => match o {
                Some(e) => e,
                None => {
                    return Ok(None);
                },
            },
        };
        let mpos = if e >= 2 {
            e - 2
        } else {
            0
        };
        let m = match self.read_eol_marker(mpos) {
            Ok(m) => m,
            Err(err) => {
                return Err(err);
            },
        };
        let end = if e >= m {
            e - m
        } else {
            0
        };
        proof {
            let d = old(self).data@;
            let p = old(self).pos as int;
            let se = if find_tag(d, p, kw_endstream()) is Some {
                find_tag(d, p, kw_endstream())->0
            } else {
                find_tag(d, after_find(d, p, kw_endstream()), kw_endobj())->0
            };
            assert(d.len() == dlen);
            assert(se == e as int);
            assert(spec_eol_marker(d, sat_sub(se, 2)) == Ok::<int, PdfError>(m as int));
            assert(spec_find_stream_end(d, p).1 == Ok::<Option<int>, PdfError>(Some(sat_sub(se, m as int))));
        }
        Ok(Some(end))
    }
}


/// The spec-level length result, written with exec integers.
pub open spec fn length_result_matches(r: PdfResult<Option<u64>>, s: PdfResult<Option<int>>) -> bool {
    match s {
        Ok(Some(n)) => r == Ok::<Option<u64>, PdfError>(Some(n as u64)),
        Ok(None) => r == Ok::<Option<u64>, PdfError>(None),
        Err(e) => r == Err::<Option<u64>, PdfError>(e),
    }
}

impl SyntaxParser {
    /// The stream length that the dictionary's `Length` gives.
    #[verifier::spinoff_prover]
    #[verifier::rlimit(50)]
    fn resolve_stream_length(&mut self, dict: &PdfDict) -> (r: PdfResult<Option<u64>>)
        ensures
            final(self).same_input(old(self)),
            final(self).pos == spec_resolve_length(
                old(self).data@,
                old(self).pos as int,
                old(self).mode,
                old(self).xref_spec(),
                dict@,
            ).0,
            length_result_matches(
                r,
                spec_resolve_length(
                    old(self).data@,
                    old(self).pos as int,
                    old(self).mode,
                    old(self).xref_spec(),
                    dict@,
                ).1,
            ),
        decreases xflag(old(self).xref_spec()), rem(old(self).data@, old(self).pos as int), 1nat,
    {
        let key: [u8; 6] = [76u8, 101u8, 110u8, 103u8, 116u8, 104u8];
        assert(key@ =~= seq![76u8, 101u8, 110u8, 103u8, 116u8, 104u8]);
        let len_obj = match dict.get(&key) {
            Some(o) => o,
            None => {
                return Ok(None);
            },
        };
        match len_obj {
            PdfObject::PdfNumber(n) => match n.as_u64_checked() {
                Ok(v) => Ok(Some(v)),
                Err(e) => Err(e),
            },
            PdfObject::PdfReference(rf) => {
                let info = match &self.xref_table {
                    None => {
                        return Ok(None);
                    },
                    Some(t) => match t.lookup_id(rf.id()) {
                        None => {
                            return Ok(None);
                        },
                        Some(info) => *info,
                    },
                };
                if info.state == ObjectState::Compressed {
                    return Ok(None);
                }
                let saved_pos = self.pos;
                let table = self.xref_table.take();
                self.pos = info.offset;
                let indirect = self.get_indirect_object();
                self.xref_table = table;
                let indirect = match indirect {
                    Ok(ind) => ind,
                    Err(e) => {
                        return Err(e);
                    },
                };
                self.pos = saved_pos;
                match indirect.obj().as_number() {
                    Some(n) => match n.as_u64_checked() {
                        Ok(v) => Ok(Some(v)),
                        Err(e) => Err(e),
                    },
                    None => Err(PdfError::ParserError),
                }
            },
            _ => Ok(None),
        }
    }

    #[verifier::spinoff_prover]
    #[verifier::rlimit(50)]
    /// Reads the data of a stream whose `stream` keyword was just read.
    fn read_pdf_stream(&mut self, dict: PdfDict) -> (r: PdfResult<PdfStream>)
        ensures
            final(self).same_input(old(self)),
            final(self).pos == spec_read_stream(
                old(self).data@,
                old(self).pos as int,
                old(self).mode,
                old(self).xref_spec(),
                dict@,
            ).0,
            match spec_read_stream(
                old(self).data@,
                old(self).pos as int,
                old(self).mode,
                old(self).xref_spec(),
                dict@,
            ).1 {
                Ok(o) => r matches Ok(st) && o == Obj::Stream(st.dict@, st.data@),
                Err(e) => r == Err::<PdfStream, PdfError>(e),
            },
        decreases xflag(old(self).xref_spec()), rem(old(self).data@, old(self).pos as int), 2nat,
    {
        let ghost d = self.data@;
        let ghost p0 = self.pos as int;
        let dlen = self.data.len() as u64;
        let saved_pos = self.pos;
        proof {
            lemma_consume_stream_start(d, p0, self.mode);
        }
        match self.consume_stream_start() {
            Ok(_) => {},
            Err(e) => {
                return Err(e);
            },
        }
        let lopt = match self.resolve_stream_length(&dict) {
            Ok(l) => l,
            Err(e) => {
                return Err(e);
            },
        };
        let attempt: Option<Vec<u8>> = match lopt {
            Some(n) => {
                if self.pos <= dlen && n <= dlen - self.pos {
                    let data = match self.read_block(n) {
                        Ok(data) => data,
                        Err(e) => {
                            return Err(e);
                        },
                    };
                    match self.expect_endstream_after_data() {
                        Ok(true) => Some(data),
                        Ok(false) => None,
                        Err(e) => {
                            return Err(e);
                        },
                    }
                } else {
                    None
                }
            },
            None => None,
        };
        match attempt {
            Some(data) => {
                return Ok(PdfStream::new(dict, data));
            },
            None => {},
        }
        if self.mode == ParseMode::Strict {
            self.pos = saved_pos;
            return Err(PdfError::ParserError);
        }
        let end_of_stream = match self.find_stream_end_pos() {
            Ok(e) => e,
            Err(e) => {
                return Err(e);
            },
        };
        match end_of_stream {
            Some(end_pos) => {
                let data_len = if end_pos >= self.pos {
                    end_pos - self.pos
                } else {
                    0
                };
                let data = match self.read_block(data_len) {
                    Ok(data) => data,
                    Err(e) => {
                        return Err(e);
                    },
                };
                Ok(PdfStream::new(dict, data))
            },
            None => {
                self.pos = saved_pos;
                Err(PdfError::ParserError)
            },
        }
    }

    #[verifier::spinoff_prover]
    #[verifier::rlimit(50)]
    /// Reads the items of an array after its `[`.
    fn read_array(&mut self) -> (r: PdfResult<PdfObject>)
        ensures
            final(self).same_input(old(self)),
            final(self).pos == spec_array_items(
                old(self).data@,
                old(self).pos as int,
                old(self).mode,
                old(self).xref_spec(),
                Seq::empty(),
            ).0,
            obj_result_matches(
                r,
                spec_array_items(
                    old(self).data@,
                    old(self).pos as int,
                    old(self).mode,
                    old(self).xref_spec(),
                    Seq::empty(),
                ).1,
            ),
        decreases xflag(old(self).xref_spec()), rem(old(self).data@, old(self).pos as int), 1nat,
    {
        let ghost d = self.data@;
        let ghost p0 = self.pos as int;
        let ghost x = self.xref_spec();
        let mut array = PdfArray::new();
        let close: [u8; 1] = [93u8];
        assert(close@ =~= seq![93u8]);
        loop
            invariant
                self.same_input(old(self)),
                d == self.data@,
                p0 == old(self).pos as int,
                x == self.xref_spec(),
                x == old(self).xref_spec(),
                p0 <= self.pos,
                close@ == seq![93u8],
                spec_array_items(d, p0, self.mode, x, Seq::empty()) == spec_array_items(
                    d,
                    self.pos as int,
                    self.mode,
                    x,
                    array@,
                ),
            decreases rem(d, self.pos as int),
        {
            proof {
                lemma_next_word(d, self.pos as int);
            }
            let next = match self.peek_word() {
                Ok(w) => w,
                Err(e) => {
                    return Err(e);
                },
            };
            if next.is_equal(&close) {
                let _ = self.get_next_word();
                return Ok(PdfObject::PdfArray(array));
            }
            let before = self.pos;
            let obj = match self.get_object() {
                Ok(o) => o,
                Err(e) => {
                    return Err(e);
                },
            };
            proof {
                lemma_get_object_pos(d, before as int, self.mode, x);
            }
            array.add_obj(obj);
        }
    }

    #[verifier::spinoff_prover]
    #[verifier::rlimit(50)]
    /// Reads the entries of a dictionary after its `<<`, then the stream that
    /// may follow it.
    fn read_dict(&mut self) -> (r: PdfResult<PdfObject>)
        ensures
            final(self).same_input(old(self)),
            final(self).pos == spec_dict_body(
                old(self).data@,
                old(self).pos as int,
                old(self).mode,
                old(self).xref_spec(),
                Seq::empty(),
            ).0,
            obj_result_matches(
                r,
                spec_dict_body(
                    old(self).data@,
                    old(self).pos as int,
                    old(self).mode,
                    old(self).xref_spec(),
                    Seq::empty(),
                ).1,
            ),
        decreases xflag(old(self).xref_spec()), rem(old(self).data@, old(self).pos as int), 1nat,
    {
        let ghost d = self.data@;
        let ghost p0 = self.pos as int;
        let ghost x = self.xref_spec();
        let mut dict = PdfDict::new();
        let close: [u8; 2] = [62u8, 62u8];
        let endobj: [u8; 6] = [101u8, 110u8, 100u8, 111u8, 98u8, 106u8];
        let slash: [u8; 1] = [47u8];
        let stream_kw: [u8; 6] = [115u8, 116u8, 114u8, 101u8, 97u8, 109u8];
        assert(close@ =~= kw_dict_close());
        assert(endobj@ =~= kw_endobj());
        assert(stream_kw@ =~= kw_stream());
        loop
            invariant
                self.same_input(old(self)),
                d == self.data@,
                p0 == old(self).pos as int,
                x == self.xref_spec(),
                x == old(self).xref_spec(),
                p0 <= self.pos,
                close@ == kw_dict_close(),
                endobj@ == kw_endobj(),
                stream_kw@ == kw_stream(),
                slash@ == seq![47u8],
                spec_dict_body(d, p0, self.mode, x, Seq::empty()) == spec_dict_body(
                    d,
                    self.pos as int,
                    self.mode,
                    x,
                    dict@,
                ),
            decreases rem(d, self.pos as int),
        {
            let saved_pos = self.pos;
            proof {
                lemma_next_word(d, self.pos as int);
            }
            let word = match self.get_next_word() {
                Ok(w) => w,
                Err(e) => {
                    return Err(e);
                },
            };
            if word.is_equal(&close) {
                // the end of the dictionary: a stream may follow
                let p1 = self.pos;
                assert(spec_dict_body(d, saved_pos as int, self.mode, x, dict@) == spec_dict_end(
                    d,
                    p1 as int,
                    self.mode,
                    x,
                    dict@,
                ));
                if self.pos >= self.data.len() as u64 {
                    assert(spec_dict_end(d, p1 as int, self.mode, x, dict@).0 == p1);
                    return Ok(PdfObject::PdfDict(dict));
                }
                proof {
                    lemma_next_word(d, self.pos as int);
                }
                let next = match self.get_next_word() {
                    Ok(w) => w,
                    Err(e) => {
                        return Err(e);
                    },
                };
                if !next.is_equal(&stream_kw) {
                    self.pos = p1;
                    return Ok(PdfObject::PdfDict(dict));
                }
                return match self.read_pdf_stream(dict) {
                    Ok(st) => Ok(PdfObject::PdfStream(st)),
                    Err(e) => Err(e),
                };
            }
            if word.is_equal(&endobj) {
                self.pos = saved_pos;
                return Err(PdfError::ParserError);
            }
            if word.raw[0] != 47u8 {
                return Err(PdfError::ParserError);
            }
            let name = match PdfName::new_from_buffer(word.raw()) {
                Ok(n) => n,
                Err(e) => {
                    return Err(e);
                },
            };
            if self.mode == ParseMode::Strict && dict.contains_key(name.bytes()) {
                return Err(PdfError::ParserError);
            }
            let before = self.pos;
            let value = match self.get_object() {
                Ok(v) => v,
                Err(e) => {
                    return Err(e);
                },
            };
            proof {
                lemma_get_object_pos(d, before as int, self.mode, x);
            }
            dict.insert(name.bytes, value);
        }
    }

    #[verifier::spinoff_prover]
    #[verifier::rlimit(50)]
    /// Reads the object at the position.
    pub fn get_object(&mut self) -> (r: PdfResult<PdfObject>)
        ensures
            final(self).same_input(old(self)),
            final(self).pos == spec_get_object(
                old(self).data@,
                old(self).pos as int,
                old(self).mode,
                old(self).xref_spec(),
            ).0,
            obj_result_matches(
                r,
                spec_get_object(
                    old(self).data@,
                    old(self).pos as int,
                    old(self).mode,
                    old(self).xref_spec(),
                ).1,
            ),
        decreases xflag(old(self).xref_spec()), rem(old(self).data@, old(self).pos as int), 0nat,
    {
        let ghost d = self.data@;
        let ghost p0 = self.pos as int;
        if self.pos >= self.data.len() as u64 {
            return Ok(PdfObject::PdfNull);
        }
        proof {
            lemma_next_word(d, p0);
        }
        let word = match self.get_next_word() {
            Ok(w) => w,
            Err(e) => {
                return Err(e);
            },
        };
        let r_kw: [u8; 1] = [82u8];
        assert(r_kw@ =~= kw_r());
        if word.is_number() {
            let saved_pos = self.pos;
            proof {
                lemma_next_word(d, self.pos as int);
            }
            let next = match self.get_next_word() {
                Ok(w) => w,
                Err(e) => {
                    return Err(e);
                },
            };
            if next.is_number() {
                match self.get_next_word() {
                    Ok(next2) => {
                        if next2.is_equal(&r_kw) {
                            let a = match word.as_u32_checked() {
                                Ok(a) => a,
                                Err(e) => {
                                    return Err(e);
                                },
                            };
                            let b = match next.as_u32_checked() {
                                Ok(b) => b,
                                Err(e) => {
                                    return Err(e);
                                },
                            };
                            return Ok(PdfObject::PdfReference(PdfReference::new(a, b)));
                        }
                    },
                    Err(e) => {
                        if e != PdfError::EndofFile {
                            return Err(e);
                        }
                    },
                }
            }
            self.pos = saved_pos;
            return Ok(PdfObject::PdfNumber(PdfNumber::new_from_lexeme(word.raw())));
        }
        let t_kw: [u8; 4] = [116u8, 114u8, 117u8, 101u8];
        let f_kw: [u8; 5] = [102u8, 97u8, 108u8, 115u8, 101u8];
        let n_kw: [u8; 4] = [110u8, 117u8, 108u8, 108u8];
        let open_paren: [u8; 1] = [40u8];
        let open_hex: [u8; 1] = [60u8];
        let open_bracket: [u8; 1] = [91u8];
        let open_dict: [u8; 2] = [60u8, 60u8];
        assert(t_kw@ =~= kw_true());
        assert(f_kw@ =~= kw_false());
        assert(n_kw@ =~= kw_null());
        assert(open_paren@ =~= seq![40u8]);
        assert(open_hex@ =~= seq![60u8]);
        assert(open_bracket@ =~= seq![91u8]);
        assert(open_dict@ =~= kw_dict_open());
        if word.is_equal(&t_kw) || word.is_equal(&f_kw) {
            return Ok(PdfObject::PdfBool(PdfBool::new(word.raw())));
        }
        if word.is_equal(&n_kw) {
            return Ok(PdfObject::PdfNull);
        }
        if word.is_equal(&open_paren) {
            return match self.read_string() {
                Ok(b) => Ok(PdfObject::PdfString(PdfString::new(b, false))),
                Err(e) => Err(e),
            };
        }
        if word.is_equal(&open_hex) {
            return match self.read_hex_string() {
                Ok(b) => Ok(PdfObject::PdfString(PdfString::new(b, true))),
                Err(e) => Err(e),
            };
        }
        if word.is_equal(&open_bracket) {
            return self.read_array();
        }
        if word.raw[0] == 47u8 {
            return match PdfName::new_from_buffer(word.raw()) {
                Ok(n) => Ok(PdfObject::PdfName(n)),
                Err(e) => Err(e),
            };
        }
        if word.is_equal(&open_dict) {
            return self.read_dict();
        }
        Err(PdfError::ParserError)
    }

    #[verifier::spinoff_prover]
    #[verifier::rlimit(50)]
    /// Reads the indirect object `n g obj ... endobj` at the position.
    pub fn get_indirect_object(&mut self) -> (r: PdfResult<PdfIndirect>)
        ensures
            final(self).same_input(old(self)),
            final(self).pos == spec_get_indirect(
                old(self).data@,
                old(self).pos as int,
                old(self).mode,
                old(self).xref_spec(),
            ).0,
            match spec_get_indirect(
                old(self).data@,
                old(self).pos as int,
                old(self).mode,
                old(self).xref_spec(),
            ).1 {
                Ok((n, g, o)) => r matches Ok(ind) && ind.objnum == n && ind.gennum == g
                    && ind.obj@ == o,
                Err(e) => r == Err::<PdfIndirect, PdfError>(e),
            },
        decreases xflag(old(self).xref_spec()), rem(old(self).data@, old(self).pos as int), 1nat,
    {
        let ghost d = self.data@;
        let saved_pos = self.pos;
        proof {
            lemma_next_word(d, self.pos as int);
        }
        let obj_word = match self.get_next_word() {
            Ok(w) => w,
            Err(e) => {
                return Err(e);
            },
        };
        if !obj_word.is_number() || obj_word.is_empty() {
            self.pos = saved_pos;
            return Err(PdfError::ParserError);
        }
        let objnum = match obj_word.as_u32_checked() {
            Ok(v) => v,
            Err(e) => {
                return Err(e);
            },
        };
        proof {
            lemma_next_word(d, self.pos as int);
        }
        let gen_word = match self.get_next_word() {
            Ok(w) => w,
            Err(e) => {
                return Err(e);
            },
        };
        if !gen_word.is_number() || gen_word.is_empty() {
            self.pos = saved_pos;
            return Err(PdfError::ParserError);
        }
        let gennum = match gen_word.as_u16_checked() {
            Ok(v) => v,
            Err(e) => {
                return Err(e);
            },
        };
        proof {
            lemma_next_word(d, self.pos as int);
        }
        let kw_word = match self.get_next_word() {
            Ok(w) => w,
            Err(e) => {
                return Err(e);
            },
        };
        let obj_kw: [u8; 3] = [111u8, 98u8, 106u8];
        let endobj_kw: [u8; 6] = [101u8, 110u8, 100u8, 111u8, 98u8, 106u8];
        assert(obj_kw@ =~= kw_obj());
        assert(endobj_kw@ =~= kw_endobj());
        if !kw_word.is_equal(&obj_kw) {
            self.pos = saved_pos;
            return Err(PdfError::ParserError);
        }
        let obj = match self.get_object() {
            Ok(o) => o,
            Err(e) => {
                return Err(e);
            },
        };
        let end_word = match self.get_next_word() {
            Ok(w) => w,
            Err(e) => {
                return Err(e);
            },
        };
        if !end_word.is_equal(&endobj_kw) {
            self.pos = saved_pos;
            return Err(PdfError::ParserError);
        }
        Ok(PdfIndirect::new(objnum, gennum, obj))
    }
}


/// The version named by a header line `%PDF-x.y`.
fn parse_pdf_header(line: &[u8]) -> (r: PdfResult<PdfHeader>)
    ensures
        match spec_parse_header(line@) {
            Ok(v) => r matches Ok(h) && h.version@ == v,
            Err(e) => r == Err::<PdfHeader, PdfError>(e),
        },
{
    let prefix: [u8; 5] = [37u8, 80u8, 68u8, 70u8, 45u8];
    assert(prefix@ =~= header_prefix());
    if line.len() < 8 {
        return Err(PdfError::ParserError);
    }
    let mut i: usize = 0;
    while i < 5
        invariant
            line@.len() >= 8,
            0 <= i <= 5,
            prefix@ == header_prefix(),
            forall|j: int| 0 <= j < i ==> line@[j] == prefix@[j],
        decreases 5 - i,
    {
        if line[i] != prefix[i] {
            proof {
                assert(line@.take(5)[i as int] != header_prefix()[i as int]);
            }
            return Err(PdfError::ParserError);
        }
        i = i + 1;
    }
    assert(line@.take(5) =~= header_prefix());
    let mut version: Vec<u8> = Vec::new();
    let mut k: usize = 5;
    while k < line.len()
        invariant
            5 <= k <= line@.len(),
            version@ =~= line@.subrange(5, k as int),
        decreases line.len() - k,
    {
        version.push(line[k]);
        k = k + 1;
    }
    assert(version@ =~= line@.skip(5));
    let v = version.as_slice();
    let known = v.len() == 3 && ((v[0] == 49u8 && v[1] == 46u8 && 48u8 <= v[2] && v[2] <= 55u8)
        || (v[0] == 50u8 && v[1] == 46u8 && v[2] == 48u8));
    proof {
        if v@.len() == 3 {
            if known {
                if v@[0] == 49u8 {
                    if v@[2] == 48u8 { assert(v@ =~= seq![49u8, 46u8, 48u8]); }
                    if v@[2] == 49u8 { assert(v@ =~= seq![49u8, 46u8, 49u8]); }
                    if v@[2] == 50u8 { assert(v@ =~= seq![49u8, 46u8, 50u8]); }
                    if v@[2] == 51u8 { assert(v@ =~= seq![49u8, 46u8, 51u8]); }
                    if v@[2] == 52u8 { assert(v@ =~= seq![49u8, 46u8, 52u8]); }
                    if v@[2] == 53u8 { assert(v@ =~= seq![49u8, 46u8, 53u8]); }
                    if v@[2] == 54u8 { assert(v@ =~= seq![49u8, 46u8, 54u8]); }
                    if v@[2] == 55u8 { assert(v@ =~= seq![49u8, 46u8, 55u8]); }
                } else {
                    assert(v@ =~= seq![50u8, 46u8, 48u8]);
                }
            }
        }
    }
    if !known {
        return Err(PdfError::ParserError);
    }
    Ok(PdfHeader { version })
}

proof fn lemma_high_bit_count_push(s: Seq<u8>, c: u8)
    ensures
        high_bit_count(s.push(c)) == high_bit_count(s) + if c >= 128u8 {
            1nat
        } else {
            0nat
        },
{
    assert(s.push(c).drop_last() =~= s);
}

/// Strict mode wants `%` and at least four bytes with the high bit set on the
/// line after the header.
fn validate_binary_comment_line(line: &[u8]) -> (r: PdfResult<()>)
    ensures
        spec_binary_comment_ok(line@) ==> r == Ok::<(), PdfError>(()),
        !spec_binary_comment_ok(line@) ==> r == Err::<(), PdfError>(PdfError::ParserError),
{
    if line.len() == 0 || line[0] != 37u8 {
        return Err(PdfError::ParserError);
    }
    let mut count: usize = 0;
    let mut i: usize = 1;
    while i < line.len()
        invariant
            1 <= i <= line@.len(),
            count == high_bit_count(line@.subrange(1, i as int)),
            count <= i,
        decreases line.len() - i,
    {
        proof {
            assert(line@.subrange(1, i + 1) =~= line@.subrange(1, i as int).push(line@[i as int]));
            lemma_high_bit_count_push(line@.subrange(1, i as int), line@[i as int]);
        }
        if line[i] >= 128u8 {
            count = count + 1;
        }
        i = i + 1;
    }
    assert(line@.subrange(1, i as int) =~= line@.drop_first());
    if count < 4 {
        return Err(PdfError::ParserError);
    }
    Ok(())
}

impl SyntaxParser {
    /// The file's header, read from its first line once and kept; in strict
    /// mode the binary comment line must follow it. The position is kept
    /// unless the comment line is refused.
    pub fn read_header(&mut self) -> (r: PdfResult<PdfHeader>)
        ensures
            final(self).data == old(self).data,
            final(self).mode == old(self).mode,
            final(self).xref_table == old(self).xref_table,
            old(self).header matches Some(h) ==> (r matches Ok(h2) && h2.version@ == h.version@
                && final(self).header == old(self).header && final(self).pos == old(self).pos),
            old(self).header is None ==> ({
                let (p, res) = spec_read_header(
                    old(self).data@,
                    old(self).pos as int,
                    old(self).mode,
                );
                &&& final(self).pos == p
                &&& match res {
                    Ok(v) => (r matches Ok(h) && h.version@ == v) && (final(self).header matches Some(fh) && fh.version@ == v),
                    Err(e) => r == Err::<PdfHeader, PdfError>(e) && final(self).header is None,
                }
            }),
    {
        match &self.header {
            Some(h) => {
                return Ok(PdfHeader { version: copy_bytes(h.version.as_slice()) });
            },
            None => {},
        }
        let saved_pos = self.pos;
        self.pos = 0;
        let line = match self.read_line() {
            Ok(l) => l,
            Err(e) => {
                return Err(e);
            },
        };
        if self.mode == ParseMode::Strict {
            let binary_line = match self.read_line() {
                Ok(l) => l,
                Err(e) => {
                    return Err(e);
                },
            };
            match validate_binary_comment_line(binary_line.as_slice()) {
                Ok(_) => {},
                Err(e) => {
                    return Err(e);
                },
            }
        }
        self.pos = saved_pos;
        let header = match parse_pdf_header(line.as_slice()) {
            Ok(h) => h,
            Err(e) => {
                return Err(e);
            },
        };
        let copy = PdfHeader { version: copy_bytes(header.version.as_slice()) };
        self.header = Some(header);
        Ok(copy)
    }
}

} // verus!
