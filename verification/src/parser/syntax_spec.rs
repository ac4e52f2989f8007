use vstd::prelude::*;
use crate::error::{PdfError, PdfResult};
use crate::objects::{Obj, PdfObject, spec_is_number_token, spec_decode_name, dict_get, dict_insert, spec_number_as};
use crate::cross_ref_table::{ObjectInfo, ObjectState, xref_lookup};
use crate::parser::character::{
    spec_is_delimiter, spec_is_white_space, spec_is_end_of_line, spec_is_hex_digit,
};
use crate::parser::parse_utility::{spec_parse_unsigned, spec_hex_value};

verus! {

/// How strictly the PDF syntax is enforced.
#[derive(Debug, Clone, Copy, PartialEq, Eq, Structural)]
pub enum ParseMode {
    Strict,
    Compatible,
}

/// The bytes left to read from position `p`.
pub open spec fn rem(d: Seq<u8>, p: int) -> nat {
    if 0 <= p < d.len() {
        (d.len() - p) as nat
    } else {
        0
    }
}

/// Where a reader that runs to the end of the data stops.
pub open spec fn end_pos(d: Seq<u8>, p: int) -> int {
    if p >= d.len() {
        p
    } else {
        d.len() as int
    }
}

pub open spec fn kw_r() -> Seq<u8> {
    seq![82u8]
}

pub open spec fn kw_true() -> Seq<u8> {
    seq![116u8, 114u8, 117u8, 101u8]
}

pub open spec fn kw_false() -> Seq<u8> {
    seq![102u8, 97u8, 108u8, 115u8, 101u8]
}

pub open spec fn kw_null() -> Seq<u8> {
    seq![110u8, 117u8, 108u8, 108u8]
}

pub open spec fn kw_obj() -> Seq<u8> {
    seq![111u8, 98u8, 106u8]
}

pub open spec fn kw_endobj() -> Seq<u8> {
    seq![101u8, 110u8, 100u8, 111u8, 98u8, 106u8]
}

pub open spec fn kw_stream() -> Seq<u8> {
    seq![115u8, 116u8, 114u8, 101u8, 97u8, 109u8]
}

pub open spec fn kw_endstream() -> Seq<u8> {
    seq![101u8, 110u8, 100u8, 115u8, 116u8, 114u8, 101u8, 97u8, 109u8]
}

pub open spec fn kw_dict_open() -> Seq<u8> {
    seq![60u8, 60u8]
}

pub open spec fn kw_dict_close() -> Seq<u8> {
    seq![62u8, 62u8]
}

// ---------------------------------------------------------------- words

/// The position of the next word: white space and comments (from `%` to the
/// end of the line) are skipped. `None` when the data ends first.
pub open spec fn skip_ws(d: Seq<u8>, p: int, in_comment: bool) -> Option<int>
    decreases rem(d, p),
{
    if !(0 <= p < d.len()) {
        None
    } else if in_comment {
        skip_ws(d, p + 1, !spec_is_end_of_line(d[p]))
    } else if spec_is_white_space(d[p]) {
        skip_ws(d, p + 1, false)
    } else if d[p] == 37u8 {
        skip_ws(d, p + 1, true)
    } else {
        Some(p)
    }
}

/// The end of the run of bytes that are neither delimiters nor white space.
pub open spec fn scan_regular(d: Seq<u8>, p: int) -> int
    decreases rem(d, p),
{
    if 0 <= p < d.len() && !spec_is_delimiter(d[p]) && !spec_is_white_space(d[p]) {
        scan_regular(d, p + 1)
    } else {
        p
    }
}

/// The next word from position `p`: where reading stops, and the word's bytes
/// with whether they form a number.
/// A delimiter is a word of its own, except that `<<` and `>>` are words and a
/// `/` is followed by the bytes of the name; other words run up to the next
/// delimiter or white space.
pub open spec fn spec_next_word(d: Seq<u8>, p: int) -> (int, PdfResult<(Seq<u8>, bool)>) {
    match skip_ws(d, p, false) {
        None => (end_pos(d, p), Err(PdfError::EndofFile)),
        Some(q) => {
            let c = d[q];
            if spec_is_delimiter(c) {
                if c == 47u8 {
                    let e = scan_regular(d, q + 1);
                    (e, Ok((d.subrange(q, e), false)))
                } else if c == 60u8 || c == 62u8 {
                    if q + 1 >= d.len() {
                        (q + 1, Err(PdfError::EndofFile))
                    } else if d[q + 1] == c {
                        (q + 2, Ok((seq![c, c], false)))
                    } else {
                        (q + 1, Ok((seq![c], false)))
                    }
                } else {
                    (q + 1, Ok((seq![c], false)))
                }
            } else {
                let e = scan_regular(d, q + 1);
                (e, Ok((d.subrange(q, e), spec_is_number_token(d.subrange(q, e)))))
            }
        },
    }
}

/// `PdfWord::as_u64_checked` and its narrower forms: a number word parsed as
/// `str::parse` does.
pub open spec fn spec_word_unsigned(raw: Seq<u8>, is_number: bool, max: nat) -> PdfResult<nat> {
    if !is_number {
        Err(PdfError::ParserError)
    } else {
        match spec_parse_unsigned(raw, max) {
            Some(v) => Ok(v),
            None => Err(PdfError::ParserError),
        }
    }
}

pub proof fn lemma_skip_ws(d: Seq<u8>, p: int, c: bool)
    requires
        0 <= p,
    ensures
        skip_ws(d, p, c) matches Some(q) ==> p <= q < d.len() && !spec_is_white_space(d[q])
            && d[q] != 37u8,
    decreases rem(d, p),
{
    if 0 <= p < d.len() {
        if c {
            lemma_skip_ws(d, p + 1, !spec_is_end_of_line(d[p]));
        } else if spec_is_white_space(d[p]) || d[p] == 37u8 {
            lemma_skip_ws(d, p + 1, d[p] == 37u8 && !spec_is_white_space(d[p]));
        }
    }
}

pub proof fn lemma_scan_regular(d: Seq<u8>, p: int)
    requires
        0 <= p <= d.len(),
    ensures
        p <= scan_regular(d, p) <= d.len(),
        forall|i: int|
            p <= i < scan_regular(d, p) ==> !spec_is_delimiter(#[trigger] d[i])
                && !spec_is_white_space(d[i]),
        scan_regular(d, p) < d.len() ==> spec_is_delimiter(d[scan_regular(d, p)])
            || spec_is_white_space(d[scan_regular(d, p)]),
    decreases rem(d, p),
{
    if 0 <= p < d.len() && !spec_is_delimiter(d[p]) && !spec_is_white_space(d[p]) {
        lemma_scan_regular(d, p + 1);
    }
}

/// Reading a word moves forward, and a word is never empty.
pub proof fn lemma_next_word(d: Seq<u8>, p: int)
    requires
        0 <= p,
    ensures
        spec_next_word(d, p).0 >= p,
        spec_next_word(d, p).0 <= (if p > d.len() {
            p
        } else {
            d.len() as int
        }),
        spec_next_word(d, p).1 is Ok ==> p < spec_next_word(d, p).0 <= d.len() && p < d.len(),
        spec_next_word(d, p).1 matches Ok((raw, _)) ==> raw.len() > 0,
{
    lemma_skip_ws(d, p, false);
    match skip_ws(d, p, false) {
        None => {},
        Some(q) => {
            lemma_scan_regular(d, q + 1);
        },
    }
}

// ---------------------------------------------------------------- lines

/// The first end-of-line byte at or after `p`, or the end of the data.
pub open spec fn line_end(d: Seq<u8>, p: int) -> int
    decreases rem(d, p),
{
    if 0 <= p < d.len() && !spec_is_end_of_line(d[p]) {
        line_end(d, p + 1)
    } else {
        p
    }
}

/// Where reading stops after the line that starts at `p`: past its end-of-line
/// marker, which is CR, LF, or CR LF.
pub open spec fn after_line(d: Seq<u8>, p: int) -> int {
    let e = line_end(d, p);
    if p >= d.len() {
        p
    } else if e >= d.len() {
        d.len() as int
    } else if d[e] == 13u8 && e + 1 < d.len() && d[e + 1] == 10u8 {
        e + 2
    } else {
        e + 1
    }
}

/// The bytes of the line that starts at `p`, without its end-of-line marker.
pub open spec fn line_bytes(d: Seq<u8>, p: int) -> Seq<u8> {
    if p >= d.len() {
        Seq::empty()
    } else {
        d.subrange(p, line_end(d, p))
    }
}

pub proof fn lemma_line_end(d: Seq<u8>, p: int)
    requires
        0 <= p <= d.len(),
    ensures
        p <= line_end(d, p) <= d.len(),
        forall|i: int| p <= i < line_end(d, p) ==> !spec_is_end_of_line(#[trigger] d[i]),
        line_end(d, p) < d.len() ==> spec_is_end_of_line(d[line_end(d, p)]),
    decreases rem(d, p),
{
    if 0 <= p < d.len() && !spec_is_end_of_line(d[p]) {
        lemma_line_end(d, p + 1);
    }
}

// ---------------------------------------------------------------- strings

/// The body of a hexadecimal string from position `p` (after the `<`): white
/// space is skipped, digits pair up into bytes, and a lone last digit is
/// padded with zero.
pub open spec fn hex_body(d: Seq<u8>, p: int, hi: Option<u8>, acc: Seq<u8>) -> (
    int,
    PdfResult<Seq<u8>>,
)
    decreases rem(d, p),
{
    if !(0 <= p < d.len()) {
        (p, Err(PdfError::EndofFile))
    } else {
        let c = d[p];
        if c == 62u8 {
            (
                p + 1,
                Ok(
                    match hi {
                        Some(h) => acc.push((h * 16) as u8),
                        None => acc,
                    },
                ),
            )
        } else if spec_is_white_space(c) {
            hex_body(d, p + 1, hi, acc)
        } else if spec_is_hex_digit(c) {
            match hi {
                Some(h) => hex_body(d, p + 1, None, acc.push((h * 16 + spec_hex_value(c)) as u8)),
                None => hex_body(d, p + 1, Some(spec_hex_value(c)), acc),
            }
        } else {
            (p + 1, Err(PdfError::ParserError))
        }
    }
}

pub open spec fn spec_is_octal(c: u8) -> bool {
    48u8 <= c <= 55u8
}

/// The byte that an escape sequence `\c` stands for, for the single-byte escapes.
pub open spec fn escape_byte(c: u8) -> u8 {
    if c == 110u8 {
        10u8
    } else if c == 114u8 {
        13u8
    } else if c == 116u8 {
        9u8
    } else if c == 98u8 {
        8u8
    } else if c == 102u8 {
        12u8
    } else {
        c
    }
}

/// The body of a literal string from position `p` (after the `(`): balanced
/// parentheses are kept, escapes are decoded, a backslash before an end of
/// line joins the lines, and an octal escape of one to three digits gives a
/// byte (above 255 it is an error).
pub open spec fn str_body(d: Seq<u8>, p: int, nest: nat, acc: Seq<u8>) -> (
    int,
    PdfResult<Seq<u8>>,
)
    decreases rem(d, p),
{
    if !(0 <= p < d.len()) {
        (p, Err(PdfError::EndofFile))
    } else {
        let c = d[p];
        if c == 40u8 {
            str_body(d, p + 1, nest + 1, acc.push(c))
        } else if c == 41u8 {
            if nest == 0 {
                (p + 1, Ok(acc))
            } else {
                str_body(d, p + 1, (nest - 1) as nat, acc.push(c))
            }
        } else if c == 92u8 {
            if p + 1 >= d.len() {
                (p + 1, Err(PdfError::EndofFile))
            } else {
                let e = d[p + 1];
                if e == 10u8 {
                    str_body(d, p + 2, nest, acc)
                } else if e == 13u8 {
                    if p + 2 < d.len() && d[p + 2] == 10u8 {
                        str_body(d, p + 3, nest, acc)
                    } else {
                        str_body(d, p + 2, nest, acc)
                    }
                } else if spec_is_octal(e) {
                    let two = p + 2 < d.len() && spec_is_octal(d[p + 2]);
                    let three = two && p + 3 < d.len() && spec_is_octal(d[p + 3]);
                    let v: int = if three {
                        (e - 48) * 64 + (d[p + 2] - 48) * 8 + (d[p + 3] - 48)
                    } else if two {
                        (e - 48) * 8 + (d[p + 2] - 48)
                    } else {
                        (e - 48) as int
                    };
                    let next: int = if three {
                        p + 4
                    } else if two {
                        p + 3
                    } else {
                        p + 2
                    };
                    if v > 255 {
                        (next, Err(PdfError::ParserError))
                    } else {
                        str_body(d, next, nest, acc.push(v as u8))
                    }
                } else {
                    str_body(d, p + 2, nest, acc.push(escape_byte(e)))
                }
            }
        } else {
            str_body(d, p + 1, nest, acc.push(c))
        }
    }
}

// ---------------------------------------------------------------- streams

/// Whether the bytes of `tag` occur at position `i`.
pub open spec fn tag_at(d: Seq<u8>, i: int, tag: Seq<u8>) -> bool {
    0 <= i && i + tag.len() <= d.len() && d.subrange(i, i + tag.len()) == tag
}

/// The first occurrence of `tag` at or after `p`.
pub open spec fn find_tag(d: Seq<u8>, p: int, tag: Seq<u8>) -> Option<int>
    decreases rem(d, p),
{
    if !(0 <= p && p + tag.len() <= d.len()) {
        None
    } else if tag_at(d, p, tag) {
        Some(p)
    } else if p < d.len() {
        find_tag(d, p + 1, tag)
    } else {
        None
    }
}

/// Where reading stops after the search for `tag` from `p`: back at `p` when
/// it is found, at the end of the data when not.
pub open spec fn after_find(d: Seq<u8>, p: int, tag: Seq<u8>) -> int {
    if find_tag(d, p, tag) is Some {
        p
    } else {
        end_pos(d, p)
    }
}

/// The optional end of line after the stream keyword or before `endstream`.
pub open spec fn after_optional_eol(d: Seq<u8>, p: int) -> int {
    if !(0 <= p < d.len()) {
        p
    } else if d[p] == 10u8 {
        p + 1
    } else if d[p] == 13u8 {
        if p + 1 < d.len() && d[p + 1] == 10u8 {
            p + 2
        } else {
            p + 1
        }
    } else {
        p
    }
}

/// The end of line that must follow the `stream` keyword; in compatible mode
/// anything up to the next end of line is skipped.
pub open spec fn spec_consume_stream_start(d: Seq<u8>, p: int, mode: ParseMode) -> (
    int,
    PdfResult<()>,
) {
    if !(0 <= p < d.len()) {
        (p, Err(PdfError::EndofFile))
    } else if d[p] == 10u8 || d[p] == 13u8 {
        (after_optional_eol(d, p), Ok(()))
    } else if mode == ParseMode::Compatible {
        (after_line(d, p), Ok(()))
    } else {
        (p + 1, Err(PdfError::ParserError))
    }
}

/// Whether `endstream` follows the data at `p`, after an optional end of line.
pub open spec fn spec_expect_endstream(d: Seq<u8>, p: int) -> (int, PdfResult<bool>) {
    let p1 = after_optional_eol(d, p);
    let (p2, w) = spec_next_word(d, p1);
    match w {
        Err(e) => (p2, Err(e)),
        Ok((raw, _)) => if raw == kw_endstream() {
            (p2, Ok(true))
        } else {
            let (p3, w2) = spec_next_word(d, p);
            match w2 {
                Err(e) => (p3, Err(e)),
                Ok((raw2, _)) => if raw2 == kw_endstream() {
                    (p3, Ok(true))
                } else {
                    (p, Ok(false))
                },
            }
        },
    }
}

/// The size of the end-of-line marker that ends at `pos + 2`: 2 for CR LF,
/// 1 when the byte at `pos` is CR or LF, 0 otherwise; both bytes must exist.
pub open spec fn spec_eol_marker(d: Seq<u8>, pos: int) -> PdfResult<int> {
    if !(0 <= pos && pos + 1 < d.len()) {
        Err(PdfError::EndofFile)
    } else if d[pos] == 13u8 && d[pos + 1] == 10u8 {
        Ok(2)
    } else if d[pos] == 13u8 || d[pos] == 10u8 {
        Ok(1)
    } else {
        Ok(0)
    }
}

pub open spec fn sat_sub(a: int, b: int) -> int {
    if a >= b {
        a - b
    } else {
        0
    }
}

/// The end of stream data found by searching for `endstream` (or, failing
/// that, `endobj`) from `p`, less the end-of-line marker before it.
pub open spec fn spec_find_stream_end(d: Seq<u8>, p: int) -> (int, PdfResult<Option<int>>) {
    let s = find_tag(d, p, kw_endstream());
    let ps = after_find(d, p, kw_endstream());
    let o = find_tag(d, ps, kw_endobj());
    let po = after_find(d, ps, kw_endobj());
    if s is None && o is None {
        (po, Ok(None))
    } else {
        let e = if s is Some {
            s->0
        } else {
            o->0
        };
        match spec_eol_marker(d, sat_sub(e, 2)) {
            Err(err) => (po, Err(err)),
            Ok(m) => (po, Ok(Some(sat_sub(e, m)))),
        }
    }
}

/// Reading `n` bytes of stream data at `p`, then looking for `endstream`.
/// `Ok(Some(data))` when both succeed, `Ok(None)` when the length does not fit
/// or `endstream` does not follow.
pub open spec fn spec_stream_with_length(d: Seq<u8>, p: int, n: int) -> (
    int,
    PdfResult<Option<Seq<u8>>>,
) {
    if p + n <= d.len() {
        let (p3, r) = spec_expect_endstream(d, p + n);
        match r {
            Err(e) => (p3, Err(e)),
            Ok(true) => (p3, Ok(Some(d.subrange(p, p + n)))),
            Ok(false) => (p3, Ok(None)),
        }
    } else {
        (p, Ok(None))
    }
}

/// 1 when the parser has a cross-reference table to resolve references with.
pub open spec fn xflag(x: Option<Seq<ObjectInfo>>) -> nat {
    if x is Some {
        1
    } else {
        0
    }
}

// ---------------------------------------------------------------- objects

/// The object that starts at position `p`: where reading stops, and the object.
pub open spec fn spec_get_object(d: Seq<u8>, p: int, mode: ParseMode, x: Option<Seq<ObjectInfo>>) -> (
    int,
    PdfResult<Obj>,
)
    decreases xflag(x), rem(d, p), 0nat,
{
    if p < 0 || p >= d.len() {
        (p, Ok(Obj::Null))
    } else {
        proof {
            lemma_next_word(d, p);
        }
        let (p1, w) = spec_next_word(d, p);
        match w {
            Err(e) => (p1, Err(e)),
            Ok((raw, isnum)) => {
                if isnum {
                    proof {
                        lemma_next_word(d, p1);
                    }
                    let (p2, w2) = spec_next_word(d, p1);
                    match w2 {
                        Err(e) => (p2, Err(e)),
                        Ok((raw2, isnum2)) => {
                            if isnum2 {
                                let (p3, w3) = spec_next_word(d, p2);
                                match w3 {
                                    Ok((raw3, _)) => if raw3 == kw_r() {
                                        match spec_word_unsigned(raw, isnum, u32::MAX as nat) {
                                            Err(e) => (p3, Err(e)),
                                            Ok(a) => match spec_word_unsigned(
                                                raw2,
                                                isnum2,
                                                u32::MAX as nat,
                                            ) {
                                                Err(e) => (p3, Err(e)),
                                                Ok(b) => (p3, Ok(Obj::Ref(a as u32, b as u32))),
                                            },
                                        }
                                    } else {
                                        (p1, Ok(Obj::Number(raw)))
                                    },
                                    Err(e) => if e == PdfError::EndofFile {
                                        (p1, Ok(Obj::Number(raw)))
                                    } else {
                                        (p3, Err(e))
                                    },
                                }
                            } else {
                                (p1, Ok(Obj::Number(raw)))
                            }
                        },
                    }
                } else if raw == kw_true() || raw == kw_false() {
                    (p1, Ok(Obj::Bool(raw == kw_true())))
                } else if raw == kw_null() {
                    (p1, Ok(Obj::Null))
                } else if raw == seq![40u8] {
                    let (p2, r) = str_body(d, p1, 0, Seq::empty());
                    match r {
                        Ok(b) => (p2, Ok(Obj::Str(b, false))),
                        Err(e) => (p2, Err(e)),
                    }
                } else if raw == seq![60u8] {
                    let (p2, r) = hex_body(d, p1, None, Seq::empty());
                    match r {
                        Ok(b) => (p2, Ok(Obj::Str(b, true))),
                        Err(e) => (p2, Err(e)),
                    }
                } else if raw == seq![91u8] {
                    spec_array_items(d, p1, mode, x, Seq::empty())
                } else if raw[0] == 47u8 {
                    match spec_decode_name(raw) {
                        Some(n) => (p1, Ok(Obj::Name(n))),
                        None => (p1, Err(PdfError::ParserError)),
                    }
                } else if raw == kw_dict_open() {
                    spec_dict_body(d, p1, mode, x, Seq::empty())
                } else {
                    (p1, Err(PdfError::ParserError))
                }
            },
        }
    }
}

/// The items of an array from position `p` up to its `]`, after the items `acc`.
/// Each item read moves the position on (`lemma_get_object_pos`), so the
/// branch for an item that does not is never taken; it only bounds the
/// recursion.
pub open spec fn spec_array_items(
    d: Seq<u8>,
    p: int,
    mode: ParseMode,
    x: Option<Seq<ObjectInfo>>,
    acc: Seq<Obj>,
) -> (int, PdfResult<Obj>)
    decreases xflag(x), rem(d, p), 1nat,
{
    if p < 0 {
        (p, Err(PdfError::ParserError))
    } else {
        proof {
            lemma_next_word(d, p);
        }
        let (pp, w) = spec_next_word(d, p);
        match w {
            Err(e) => (p, Err(e)),
            Ok((raw, _)) => if raw == seq![93u8] {
                (pp, Ok(Obj::Array(acc)))
            } else {
                let (p2, r) = spec_get_object(d, p, mode, x);
                match r {
                    Err(e) => (p2, Err(e)),
                    Ok(o) => if p2 > p {
                        spec_array_items(d, p2, mode, x, acc.push(o))
                    } else {
                        (p2, Err(PdfError::ParserError))
                    },
                }
            },
        }
    }
}

/// The entries of a dictionary from position `p` up to its `>>`, after the
/// entries `acc`, then the stream that may follow it. A value read never
/// moves the position back (`lemma_get_object_pos`), so the branch for one
/// that does is never taken; it only bounds the recursion.
pub open spec fn spec_dict_body(
    d: Seq<u8>,
    p: int,
    mode: ParseMode,
    x: Option<Seq<ObjectInfo>>,
    acc: Seq<(Seq<u8>, Obj)>,
) -> (int, PdfResult<Obj>)
    decreases xflag(x), rem(d, p), 1nat,
{
    if p < 0 {
        (p, Err(PdfError::ParserError))
    } else {
        proof {
            lemma_next_word(d, p);
        }
        let (p1, w) = spec_next_word(d, p);
        match w {
            Err(e) => (p1, Err(e)),
            Ok((raw, _)) => if raw == kw_dict_close() {
                spec_dict_end(d, p1, mode, x, acc)
            } else if raw == kw_endobj() {
                (p, Err(PdfError::ParserError))
            } else if raw[0] != 47u8 {
                (p1, Err(PdfError::ParserError))
            } else {
                match spec_decode_name(raw) {
                    None => (p1, Err(PdfError::ParserError)),
                    Some(key) => if mode == ParseMode::Strict && dict_get(acc, key) is Some {
                        (p1, Err(PdfError::ParserError))
                    } else {
                        let (p2, r) = spec_get_object(d, p1, mode, x);
                        match r {
                            Err(e) => (p2, Err(e)),
                            Ok(v) => if p2 >= p1 {
                                spec_dict_body(d, p2, mode, x, dict_insert(acc, key, v))
                            } else {
                                (p2, Err(PdfError::ParserError))
                            },
                        }
                    },
                }
            },
        }
    }
}

/// After the `>>` of a dictionary at `p`: a stream when the `stream` keyword
/// follows, else the dictionary.
pub open spec fn spec_dict_end(
    d: Seq<u8>,
    p: int,
    mode: ParseMode,
    x: Option<Seq<ObjectInfo>>,
    acc: Seq<(Seq<u8>, Obj)>,
) -> (int, PdfResult<Obj>)
    decreases xflag(x), rem(d, p), 3nat,
{
    if p < 0 || p >= d.len() {
        (p, Ok(Obj::Dict(acc)))
    } else {
        proof {
            lemma_next_word(d, p);
        }
        let (p1, w) = spec_next_word(d, p);
        match w {
            Err(e) => (p1, Err(e)),
            Ok((raw, _)) => if raw == kw_stream() {
                spec_read_stream(d, p1, mode, x, acc)
            } else {
                (p, Ok(Obj::Dict(acc)))
            },
        }
    }
}

/// The data of a stream whose `stream` keyword ends at `p`: by its `Length`
/// when that fits and `endstream` follows, else (in compatible mode) up to the
/// `endstream` found by searching.
pub open spec fn spec_read_stream(
    d: Seq<u8>,
    p: int,
    mode: ParseMode,
    x: Option<Seq<ObjectInfo>>,
    dict: Seq<(Seq<u8>, Obj)>,
) -> (int, PdfResult<Obj>)
    decreases xflag(x), rem(d, p), 2nat,
{
    let (p1, r1) = spec_consume_stream_start(d, p, mode);
    match r1 {
        Err(e) => (p1, Err(e)),
        Ok(_) => {
            if p1 < p {
                (p1, Err(PdfError::ParserError))
            } else {
                let (p2, rl) = spec_resolve_length(d, p1, mode, x, dict);
                match rl {
                    Err(e) => (p2, Err(e)),
                    Ok(lopt) => {
                        let (pa, attempt) = match lopt {
                            Some(n) => spec_stream_with_length(d, p2, n),
                            None => (p2, Ok(None)),
                        };
                        match attempt {
                            Err(e) => (pa, Err(e)),
                            Ok(Some(data)) => (pa, Ok(Obj::Stream(dict, data))),
                            Ok(None) => if mode == ParseMode::Strict {
                                (p, Err(PdfError::ParserError))
                            } else {
                                let (pe, re) = spec_find_stream_end(d, pa);
                                match re {
                                    Err(e) => (pe, Err(e)),
                                    Ok(Some(end)) => {
                                        let n = sat_sub(end, pe);
                                        if pe + n > d.len() {
                                            (pe, Err(PdfError::ParserError))
                                        } else {
                                            (pe + n, Ok(Obj::Stream(dict, d.subrange(pe, pe + n))))
                                        }
                                    },
                                    Ok(None) => (p, Err(PdfError::ParserError)),
                                }
                            },
                        }
                    },
                }
            }
        },
    }
}

/// The stream length from the dictionary's `Length`: a number, or a reference
/// resolved through the cross-reference table to an indirect number (parsed
/// without the table). Anything else gives no length.
pub open spec fn spec_resolve_length(
    d: Seq<u8>,
    p: int,
    mode: ParseMode,
    x: Option<Seq<ObjectInfo>>,
    dict: Seq<(Seq<u8>, Obj)>,
) -> (int, PdfResult<Option<int>>)
    decreases xflag(x), rem(d, p), 1nat,
{
    match dict_get(dict, seq![76u8, 101u8, 110u8, 103u8, 116u8, 104u8]) {
        None => (p, Ok(None)),
        Some(Obj::Number(lex)) => match spec_number_as(lex, u64::MAX as int) {
            Ok(v) => (p, Ok(Some(v as int))),
            Err(e) => (p, Err(e)),
        },
        Some(Obj::Ref(n, _)) => match x {
            None => (p, Ok(None)),
            Some(t) => match xref_lookup(t, n) {
                None => (p, Ok(None)),
                Some(info) => if info.state == ObjectState::Compressed {
                    (p, Ok(None))
                } else {
                    let (pi, r) = spec_get_indirect(d, info.offset as int, mode, None);
                    match r {
                        Err(e) => (pi, Err(e)),
                        Ok((_, _, o)) => match o {
                            Obj::Number(lex) => match spec_number_as(lex, u64::MAX as int) {
                                Ok(v) => (p, Ok(Some(v as int))),
                                Err(e) => (p, Err(e)),
                            },
                            _ => (p, Err(PdfError::ParserError)),
                        },
                    }
                },
            },
        },
        Some(_) => (p, Ok(None)),
    }
}

/// An indirect object `n g obj ... endobj` at position `p`.
pub open spec fn spec_get_indirect(d: Seq<u8>, p: int, mode: ParseMode, x: Option<Seq<ObjectInfo>>) -> (
    int,
    PdfResult<(u32, u16, Obj)>,
)
    decreases xflag(x), rem(d, p), 1nat,
{
    if p < 0 {
        (p, Err(PdfError::ParserError))
    } else {
        proof {
            lemma_next_word(d, p);
        }
        let (p1, w1) = spec_next_word(d, p);
        match w1 {
            Err(e) => (p1, Err(e)),
            Ok((raw1, isnum1)) => if !isnum1 {
                (p, Err(PdfError::ParserError))
            } else {
                match spec_word_unsigned(raw1, isnum1, u32::MAX as nat) {
                    Err(e) => (p1, Err(e)),
                    Ok(objnum) => {
                        proof {
                            lemma_next_word(d, p1);
                        }
                        let (p2, w2) = spec_next_word(d, p1);
                        match w2 {
                            Err(e) => (p2, Err(e)),
                            Ok((raw2, isnum2)) => if !isnum2 {
                                (p, Err(PdfError::ParserError))
                            } else {
                                match spec_word_unsigned(raw2, isnum2, u16::MAX as nat) {
                                    Err(e) => (p2, Err(e)),
                                    Ok(gennum) => {
                                        proof {
                                            lemma_next_word(d, p2);
                                        }
                                        let (p3, w3) = spec_next_word(d, p2);
                                        match w3 {
                                            Err(e) => (p3, Err(e)),
                                            Ok((raw3, _)) => if raw3 != kw_obj() {
                                                (p, Err(PdfError::ParserError))
                                            } else {
                                                let (p4, ro) = spec_get_object(d, p3, mode, x);
                                                match ro {
                                                    Err(e) => (p4, Err(e)),
                                                    Ok(o) => {
                                                        let (p5, w5) = spec_next_word(d, p4);
                                                        match w5 {
                                                            Err(e) => (p5, Err(e)),
                                                            Ok((raw5, _)) => if raw5 != kw_endobj() {
                                                                (p, Err(PdfError::ParserError))
                                                            } else {
                                                                (
                                                                    p5,
                                                                    Ok(
                                                                        (
                                                                            objnum as u32,
                                                                            gennum as u16,
                                                                            o,
                                                                        ),
                                                                    ),
                                                                )
                                                            },
                                                        }
                                                    },
                                                }
                                            },
                                        }
                                    },
                                }
                            },
                        }
                    },
                }
            },
        }
    }
}

/// The end of line after the `stream` keyword is consumed moving forward.
pub proof fn lemma_consume_stream_start(d: Seq<u8>, p: int, mode: ParseMode)
    requires
        0 <= p,
    ensures
        spec_consume_stream_start(d, p, mode).1 is Ok ==> p < spec_consume_stream_start(
            d,
            p,
            mode,
        ).0 <= d.len(),
        spec_consume_stream_start(d, p, mode).0 >= p,
{
    if 0 <= p < d.len() {
        lemma_line_end(d, p);
    }
}

/// Reading an object is written in terms of what the parser state gives.
pub open spec fn obj_result_matches(r: PdfResult<PdfObject>, s: PdfResult<Obj>) -> bool {
    match s {
        Ok(o) => r matches Ok(v) && v@ == o,
        Err(e) => r == Err::<PdfObject, PdfError>(e),
    }
}

pub proof fn lemma_find_tag(d: Seq<u8>, p: int, tag: Seq<u8>)
    ensures
        find_tag(d, p, tag) matches Some(i) ==> p <= i && i + tag.len() <= d.len() && tag_at(
            d,
            i,
            tag,
        ),
    decreases rem(d, p),
{
    if 0 <= p && p + tag.len() <= d.len() && !tag_at(d, p, tag) && p < d.len() {
        lemma_find_tag(d, p + 1, tag);
    }
}

// ---------------------------------------------------------------- header

/// The versions that a PDF header may name.
pub open spec fn is_known_version(v: Seq<u8>) -> bool {
    v == seq![49u8, 46u8, 48u8] || v == seq![49u8, 46u8, 49u8] || v == seq![49u8, 46u8, 50u8]
        || v == seq![49u8, 46u8, 51u8] || v == seq![49u8, 46u8, 52u8] || v == seq![
        49u8,
        46u8,
        53u8,
    ] || v == seq![49u8, 46u8, 54u8] || v == seq![49u8, 46u8, 55u8] || v == seq![
        50u8,
        46u8,
        48u8,
    ]
}

/// `%PDF-`
pub open spec fn header_prefix() -> Seq<u8> {
    seq![37u8, 80u8, 68u8, 70u8, 45u8]
}

/// The version named by a header line `%PDF-x.y`.
pub open spec fn spec_parse_header(line: Seq<u8>) -> PdfResult<Seq<u8>> {
    if line.len() < 8 || line.take(5) != header_prefix() {
        Err(PdfError::ParserError)
    } else if !is_known_version(line.skip(5)) {
        Err(PdfError::ParserError)
    } else {
        Ok(line.skip(5))
    }
}

/// The number of bytes with the high bit set in `s`.
pub open spec fn high_bit_count(s: Seq<u8>) -> nat
    decreases s.len(),
{
    if s.len() == 0 {
        0
    } else {
        high_bit_count(s.drop_last()) + if s.last() >= 128u8 {
            1nat
        } else {
            0nat
        }
    }
}

/// The comment line that strict mode wants after the header: `%` and at least
/// four bytes with the high bit set.
pub open spec fn spec_binary_comment_ok(line: Seq<u8>) -> bool {
    line.len() > 0 && line[0] == 37u8 && high_bit_count(line.drop_first()) >= 4
}

/// Reading the header of a parser at position `p` that has none yet: where
/// reading stops and the version.
pub open spec fn spec_read_header(d: Seq<u8>, p: int, mode: ParseMode) -> (int, PdfResult<Seq<u8>>) {
    let l1 = line_bytes(d, 0);
    let p1 = after_line(d, 0);
    if mode == ParseMode::Strict && !spec_binary_comment_ok(line_bytes(d, p1)) {
        (after_line(d, p1), Err(PdfError::ParserError))
    } else {
        (p, spec_parse_header(l1))
    }
}

/// A header line `%PDF-x.y` is accepted exactly when its version is one of
/// 1.0 to 1.7 or 2.0, and then that version is what it names.
pub proof fn law_header_versions(line: Seq<u8>)
    ensures
        spec_parse_header(line) is Ok <==> {
            &&& line.len() == 8
            &&& line[0] == 37u8 && line[1] == 80u8 && line[2] == 68u8 && line[3] == 70u8 && line[4] == 45u8
            &&& line[6] == 46u8
            &&& (line[5] == 49u8 && 48u8 <= line[7] <= 55u8) || (line[5] == 50u8 && line[7] == 48u8)
        },
        spec_parse_header(line) is Ok ==> spec_parse_header(line) == Ok::<Seq<u8>, PdfError>(
            seq![line[5], line[6], line[7]],
        ),
{
    if line.len() >= 8 {
        assert(line.take(5) =~= header_prefix() <==> (line[0] == 37u8 && line[1] == 80u8 && line[2] == 68u8
            && line[3] == 70u8 && line[4] == 45u8)) by {
            if line[0] == 37u8 && line[1] == 80u8 && line[2] == 68u8 && line[3] == 70u8 && line[4] == 45u8 {
                assert(line.take(5) =~= header_prefix());
            }
            if line.take(5) =~= header_prefix() {
                assert(line.take(5)[0] == line[0] && line.take(5)[4] == line[4]);
                assert(line.take(5)[1] == line[1] && line.take(5)[2] == line[2] && line.take(5)[3] == line[3]);
            }
        }
        let v = line.skip(5);
        if line.len() == 8 {
            assert(v =~= seq![line[5], line[6], line[7]]);
        } else {
            assert(v.len() != 3);
        }
    }
}

// ---------------------------------------------------------------- progress

/// A literal string that is read moves past its opening position.
pub proof fn lemma_str_body_pos(d: Seq<u8>, p: int, nest: nat, acc: Seq<u8>)
    requires
        0 <= p,
    ensures
        str_body(d, p, nest, acc).1 is Ok ==> str_body(d, p, nest, acc).0 > p,
    decreases rem(d, p),
{
    if 0 <= p < d.len() {
        let c = d[p];
        if c == 40u8 {
            lemma_str_body_pos(d, p + 1, nest + 1, acc.push(c));
        } else if c == 41u8 {
            if nest != 0 {
                lemma_str_body_pos(d, p + 1, (nest - 1) as nat, acc.push(c));
            }
        } else if c == 92u8 {
            if p + 1 < d.len() {
                let e = d[p + 1];
                if e == 10u8 {
                    lemma_str_body_pos(d, p + 2, nest, acc);
                } else if e == 13u8 {
                    if p + 2 < d.len() && d[p + 2] == 10u8 {
                        lemma_str_body_pos(d, p + 3, nest, acc);
                    } else {
                        lemma_str_body_pos(d, p + 2, nest, acc);
                    }
                } else if spec_is_octal(e) {
                    let two = p + 2 < d.len() && spec_is_octal(d[p + 2]);
                    let three = two && p + 3 < d.len() && spec_is_octal(d[p + 3]);
                    let v: int = if three {
                        (e - 48) * 64 + (d[p + 2] - 48) * 8 + (d[p + 3] - 48)
                    } else if two {
                        (e - 48) * 8 + (d[p + 2] - 48)
                    } else {
                        (e - 48) as int
                    };
                    let next: int = if three {
                        p + 4
                    } else if two {
                        p + 3
                    } else {
                        p + 2
                    };
                    if v <= 255 {
                        lemma_str_body_pos(d, next, nest, acc.push(v as u8));
                    }
                } else {
                    lemma_str_body_pos(d, p + 2, nest, acc.push(escape_byte(e)));
                }
            }
        } else {
            lemma_str_body_pos(d, p + 1, nest, acc.push(c));
        }
    }
}

/// A hexadecimal string that is read moves past its opening position.
pub proof fn lemma_hex_body_pos(d: Seq<u8>, p: int, hi: Option<u8>, acc: Seq<u8>)
    requires
        0 <= p,
    ensures
        hex_body(d, p, hi, acc).1 is Ok ==> hex_body(d, p, hi, acc).0 > p,
    decreases rem(d, p),
{
    if 0 <= p < d.len() {
        let c = d[p];
        if c == 62u8 {
        } else if spec_is_white_space(c) {
            lemma_hex_body_pos(d, p + 1, hi, acc);
        } else if spec_is_hex_digit(c) {
            match hi {
                Some(h) => lemma_hex_body_pos(d, p + 1, None, acc.push((h * 16 + spec_hex_value(c)) as u8)),
                None => lemma_hex_body_pos(d, p + 1, Some(spec_hex_value(c)), acc),
            }
        }
    }
}

/// The data of a stream that is read ends at or after the `stream` keyword.
pub proof fn lemma_read_stream_pos(
    d: Seq<u8>,
    p: int,
    mode: ParseMode,
    x: Option<Seq<ObjectInfo>>,
    dict: Seq<(Seq<u8>, Obj)>,
)
    requires
        0 <= p,
    ensures
        spec_read_stream(d, p, mode, x, dict).1 is Ok ==> spec_read_stream(d, p, mode, x, dict).0 >= p,
{
    let (p1, r1) = spec_consume_stream_start(d, p, mode);
    if r1 is Ok && p1 >= p {
        let (p2, rl) = spec_resolve_length(d, p1, mode, x, dict);
        if rl is Ok {
            assert(p2 == p1);
            match rl->Ok_0 {
                Some(n) => {
                    assert(n >= 0);
                    if p2 + n <= d.len() {
                        lemma_next_word(d, p2 + n);
                        lemma_next_word(d, after_optional_eol(d, p2 + n));
                    }
                },
                None => {},
            }
        }
    }
}

/// After a dictionary's `>>`, what is read ends at or after it.
pub proof fn lemma_dict_end_pos(
    d: Seq<u8>,
    p: int,
    mode: ParseMode,
    x: Option<Seq<ObjectInfo>>,
    acc: Seq<(Seq<u8>, Obj)>,
)
    requires
        0 <= p,
    ensures
        spec_dict_end(d, p, mode, x, acc).1 is Ok ==> spec_dict_end(d, p, mode, x, acc).0 >= p,
{
    if 0 <= p < d.len() {
        lemma_next_word(d, p);
        let p1 = spec_next_word(d, p).0;
        lemma_read_stream_pos(d, p1, mode, x, acc);
    }
}

/// The entries of a dictionary that are read end at or after `p`.
pub proof fn lemma_dict_body_pos(
    d: Seq<u8>,
    p: int,
    mode: ParseMode,
    x: Option<Seq<ObjectInfo>>,
    acc: Seq<(Seq<u8>, Obj)>,
)
    requires
        0 <= p,
    ensures
        spec_dict_body(d, p, mode, x, acc).1 is Ok ==> spec_dict_body(d, p, mode, x, acc).0 >= p,
    decreases rem(d, p),
{
    lemma_next_word(d, p);
    let (p1, w) = spec_next_word(d, p);
    match w {
        Err(_) => {},
        Ok((raw, _)) => if raw == kw_dict_close() {
            lemma_dict_end_pos(d, p1, mode, x, acc);
        } else if raw != kw_endobj() && raw[0] == 47u8 {
            match spec_decode_name(raw) {
                None => {},
                Some(key) => {
                    let (p2, r) = spec_get_object(d, p1, mode, x);
                    match r {
                        Ok(v) => if p2 >= p1 {
                            lemma_dict_body_pos(d, p2, mode, x, dict_insert(acc, key, v));
                        },
                        Err(_) => {},
                    }
                },
            }
        },
    }
}

/// The items of an array that are read end after `p`.
pub proof fn lemma_array_items_pos(
    d: Seq<u8>,
    p: int,
    mode: ParseMode,
    x: Option<Seq<ObjectInfo>>,
    acc: Seq<Obj>,
)
    requires
        0 <= p,
    ensures
        spec_array_items(d, p, mode, x, acc).1 is Ok ==> spec_array_items(d, p, mode, x, acc).0 > p,
    decreases rem(d, p),
{
    lemma_next_word(d, p);
    let (pp, w) = spec_next_word(d, p);
    match w {
        Err(_) => {},
        Ok((raw, _)) => if raw != seq![93u8] {
            let (p2, r) = spec_get_object(d, p, mode, x);
            match r {
                Ok(o) => if p2 > p {
                    lemma_array_items_pos(d, p2, mode, x, acc.push(o));
                },
                Err(_) => {},
            }
        },
    }
}

/// Reading an object never moves back, and moves forward from inside the
/// data: so every object read inside an array, a dictionary or a content
/// stream moves the position on.
pub proof fn lemma_get_object_pos(d: Seq<u8>, p: int, mode: ParseMode, x: Option<Seq<ObjectInfo>>)
    requires
        0 <= p,
    ensures
        spec_get_object(d, p, mode, x).1 is Ok ==> spec_get_object(d, p, mode, x).0 >= p,
        spec_get_object(d, p, mode, x).1 is Ok && p < d.len() ==> spec_get_object(d, p, mode, x).0 > p,
{
    if p < d.len() {
        lemma_next_word(d, p);
        let (p1, w) = spec_next_word(d, p);
        match w {
            Err(_) => {},
            Ok((raw, isnum)) => {
                if isnum {
                    lemma_next_word(d, p1);
                    let p2 = spec_next_word(d, p1).0;
                    lemma_next_word(d, p2);
                } else if raw == seq![40u8] {
                    lemma_str_body_pos(d, p1, 0, Seq::empty());
                } else if raw == seq![60u8] {
                    lemma_hex_body_pos(d, p1, None, Seq::empty());
                } else if raw == seq![91u8] {
                    lemma_array_items_pos(d, p1, mode, x, Seq::empty());
                } else if raw == kw_dict_open() {
                    lemma_dict_body_pos(d, p1, mode, x, Seq::empty());
                }
            },
        }
    }
}

} // verus!
