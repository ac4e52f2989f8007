use vstd::prelude::*;
use crate::cross_ref_table::{
    ObjectInfo, ObjectState, lemma_map_extend_push, map_extend, xref_lookup, xref_map,
};
use crate::error::PdfError;
use crate::objects::{
    Obj, ObjectId, decimal_digits, decode_name_acc, dict_insert, lemma_decimal_digits_number,
    lemma_decimal_digits_props, lemma_dict_find_from, lemma_digit_prefix_all, spec_decode_name,
    spec_is_number_token, strip_sign,
};
use crate::parser::character::{spec_is_delimiter, spec_is_hex_digit, spec_is_white_space};
use crate::parser::parse_utility::{all_digits, digits_value, spec_hex_value, spec_parse_unsigned};
use crate::parser::parser::{
    key_prev, kw_startxref, kw_trailer, kw_xref, rfind_tag, rfind_tag_from, spec_compat_entry,
    spec_find_start_xref, spec_load_xref, spec_parse_xref, spec_parse_xref_section, spec_prev,
    spec_section_at, spec_section_loop, spec_subsection, xref_window_start,
};
use crate::parser::syntax_spec::{
    ParseMode, kw_dict_close, kw_endobj, kw_false, kw_null, kw_obj, kw_r, kw_stream, kw_true,
    hex_body, scan_regular, skip_ws, spec_dict_body, spec_get_indirect, spec_get_object, spec_next_word,
    spec_word_unsigned, str_body, tag_at,
};
use crate::pdf_context::{
    PDFContext, file_has, id_lt, ids_sorted, is_objstm, spec_file_object, spec_parse_at,
};
use crate::read_back::{
    law_written_object_reads_back, lemma_read_dict, lemma_read_entries_keys, lemma_word_after,
    read_entries, read_form, readable, readable_entries, written_at,
};
use crate::store::StoreValue;
use crate::writer::{
    XrefRow, body_bytes, document_bytes, dropped_key, entries_bytes, entry_bytes, eof_out,
    escaped_bytes, header_out, indirect_bytes, kept_entries, key_size_out,
    law_saved_rows_locate_objects, lemma_read_escaped, lemma_xref_rows_len, obj_bytes, padded,
    row_bytes, rows_bytes, startxref_out, table_size, trailer_bytes, trailer_out, write_items,
    xref_rows, xref_table_bytes,
};

verus! {

// ---------------------------------------------------------------- words

/// Bytes that run on in a word: neither delimiters nor white space.
pub open spec fn word_bytes(w: Seq<u8>) -> bool {
    forall|i: int| 0 <= i < w.len() ==> !spec_is_delimiter(#[trigger] w[i]) && !spec_is_white_space(w[i])
}

/// A run of word bytes from `q` ends at `e`.
pub proof fn lemma_scan_to(d: Seq<u8>, q: int, e: int)
    requires
        0 <= q <= e <= d.len(),
        forall|i: int| q <= i < e ==> !spec_is_delimiter(#[trigger] d[i]) && !spec_is_white_space(d[i]),
        e == d.len() || spec_is_delimiter(d[e]) || spec_is_white_space(d[e]),
    ensures
        scan_regular(d, q) == e,
    decreases e - q,
{
    if q < e {
        lemma_scan_to(d, q + 1, e);
    }
}

/// A word stands at `p` when its bytes are there, followed by a delimiter,
/// white space or the end of the data.
pub proof fn lemma_word_at(d: Seq<u8>, p: int, w: Seq<u8>)
    requires
        0 <= p,
        w.len() > 0,
        word_bytes(w),
        p + w.len() <= d.len(),
        d.subrange(p, p + w.len()) == w,
        p + w.len() == d.len() || spec_is_delimiter(d[p + w.len()]) || spec_is_white_space(
            d[p + w.len()],
        ),
    ensures
        spec_next_word(d, p) == (p + w.len(), Ok::<(Seq<u8>, bool), PdfError>((w, spec_is_number_token(w)))),
{
    assert forall|i: int| p <= i < p + w.len() implies !spec_is_delimiter(#[trigger] d[i])
        && !spec_is_white_space(d[i]) by {
        assert(d[i] == d.subrange(p, p + w.len())[i - p]);
    }
    assert(d[p] == w[0]);
    assert(skip_ws(d, p, false) == Some(p));
    lemma_scan_to(d, p + 1, p + w.len());
}

/// White space before a word is skipped.
pub proof fn lemma_next_word_skips_space(d: Seq<u8>, p: int)
    requires
        0 <= p,
        p + 1 < d.len(),
        spec_is_white_space(d[p]),
    ensures
        spec_next_word(d, p) == spec_next_word(d, p + 1),
{
    assert(skip_ws(d, p, false) == skip_ws(d, p + 1, false));
}

/// White space before an object is skipped.
pub proof fn lemma_get_object_skips_space(d: Seq<u8>, p: int, mode: ParseMode, x: Option<Seq<ObjectInfo>>)
    requires
        0 <= p,
        p + 1 < d.len(),
        spec_is_white_space(d[p]),
    ensures
        spec_get_object(d, p, mode, x) == spec_get_object(d, p + 1, mode, x),
{
    lemma_next_word_skips_space(d, p);
}

/// The decimal digits of a number form a number word of that value.
pub proof fn lemma_decimal_word(v: nat, max: nat)
    requires
        v <= max,
    ensures
        decimal_digits(v).len() > 0,
        word_bytes(decimal_digits(v)),
        spec_is_number_token(decimal_digits(v)),
        spec_word_unsigned(decimal_digits(v), true, max) == Ok::<nat, PdfError>(v),
{
    lemma_decimal_digits_props(v);
    lemma_decimal_digits_number(v);
    let w = decimal_digits(v);
    assert forall|i: int| 0 <= i < w.len() implies !spec_is_delimiter(#[trigger] w[i])
        && !spec_is_white_space(w[i]) by {
        assert(crate::parser::character::spec_is_digit(w[i]));
    }
    assert(w.len() > 0 ==> w[0] != 43u8) by {
        if w.len() > 0 {
            assert(crate::parser::character::spec_is_digit(w[0]));
        }
    }
    assert(spec_parse_unsigned(w, max) == Some(v));
}

// ---------------------------------------------------------------- strings

/// A string written by the writer reads back with the same bytes, as a
/// literal string, whatever comes before or after it.
pub proof fn law_written_string_reads_back(
    pre: Seq<u8>,
    s: Seq<u8>,
    hex: bool,
    rest: Seq<u8>,
    mode: ParseMode,
    x: Option<Seq<ObjectInfo>>,
)
    ensures
        spec_get_object(pre + obj_bytes(Obj::Str(s, hex)) + rest, pre.len() as int, mode, x) == (
            (pre.len() + obj_bytes(Obj::Str(s, hex)).len()) as int,
            Ok::<Obj, PdfError>(Obj::Str(s, false)),
        ),
{
    let d = pre + obj_bytes(Obj::Str(s, hex)) + rest;
    let p = pre.len() as int;
    let front = pre + seq![40u8];
    assert(d =~= front + escaped_bytes(s) + seq![41u8] + rest);
    assert(d[p] == 40u8);
    assert(skip_ws(d, p, false) == Some(p));
    assert(spec_next_word(d, p) == (p + 1, Ok::<(Seq<u8>, bool), PdfError>((seq![40u8], false))));
    assert(s.take(0) =~= Seq::<u8>::empty());
    assert(escaped_bytes(Seq::<u8>::empty()) =~= Seq::<u8>::empty());
    lemma_read_escaped(front, s, rest, 0);
    assert(seq![40u8] != kw_true());
    assert(seq![40u8] != kw_false());
    assert(seq![40u8] != kw_null());
}

/// How many parentheses are open after the first `i` bytes of `s`: one more
/// for each `(`, one fewer for each `)`.
pub open spec fn paren_depth(s: Seq<u8>, i: int) -> int
    decreases i,
{
    if i <= 0 {
        0
    } else {
        paren_depth(s, i - 1) + if s[i - 1] == 40u8 {
            1int
        } else if s[i - 1] == 41u8 {
            -1int
        } else {
            0int
        }
    }
}

/// Text without backslashes whose parentheses balance: no `)` closes more
/// than was opened, and all that open are closed.
pub open spec fn balanced_text(s: Seq<u8>) -> bool {
    &&& forall|i: int| 0 <= i < s.len() ==> #[trigger] s[i] != 92u8
    &&& forall|i: int| 0 <= i <= s.len() ==> #[trigger] paren_depth(s, i) >= 0
    &&& paren_depth(s, s.len() as int) == 0
}

/// Reading the body of a literal string from byte `i` of balanced text.
proof fn lemma_balanced_body(d: Seq<u8>, p0: int, s: Seq<u8>, i: int)
    requires
        balanced_text(s),
        0 <= i <= s.len(),
        0 <= p0,
        p0 + s.len() < d.len(),
        d.subrange(p0, p0 + s.len()) == s,
        d[p0 + s.len()] == 41u8,
    ensures
        str_body(d, p0 + i, paren_depth(s, i) as nat, s.take(i)) == (
            p0 + s.len() + 1,
            Ok::<Seq<u8>, PdfError>(s),
        ),
    decreases s.len() - i,
{
    assert(paren_depth(s, i) >= 0);
    if i < s.len() {
        let c = s[i];
        assert(d[p0 + i] == d.subrange(p0, p0 + s.len())[i]);
        assert(s.take(i).push(c) =~= s.take(i + 1));
        assert(paren_depth(s, i + 1) >= 0);
        assert(c != 92u8);
        lemma_balanced_body(d, p0, s, i + 1);
    } else {
        assert(s.take(i) =~= s);
    }
}

/// A literal string whose parentheses balance reads back whole, with its
/// bytes as they are: a `(` inside it opens one level more, and only the `)`
/// that closes the outermost level ends it.
pub proof fn law_balanced_string_reads_back(
    pre: Seq<u8>,
    s: Seq<u8>,
    rest: Seq<u8>,
    mode: ParseMode,
    x: Option<Seq<ObjectInfo>>,
)
    requires
        balanced_text(s),
    ensures
        spec_get_object(pre + seq![40u8] + s + seq![41u8] + rest, pre.len() as int, mode, x) == (
            (pre.len() + s.len() + 2) as int,
            Ok::<Obj, PdfError>(Obj::Str(s, false)),
        ),
{
    let d = pre + seq![40u8] + s + seq![41u8] + rest;
    let p = pre.len() as int;
    assert(d.subrange(p + 1, p + 1 + s.len()) =~= s);
    assert(d[p + 1 + s.len()] == 41u8);
    assert(s.take(0) =~= Seq::<u8>::empty());
    lemma_balanced_body(d, p + 1, s, 0);
    assert(d[p] == 40u8);
    assert(skip_ws(d, p, false) == Some(p));
    assert(spec_next_word(d, p) == (p + 1, Ok::<(Seq<u8>, bool), PdfError>((seq![40u8], false))));
    assert(seq![40u8] != kw_true());
    assert(seq![40u8] != kw_false());
    assert(seq![40u8] != kw_null());
}

/// The upper-case hexadecimal digit of a value below 16.
pub open spec fn hex_digit_of(v: u8) -> u8 {
    if v < 10 {
        (48 + v) as u8
    } else {
        (55 + v) as u8
    }
}

/// Bytes as pairs of upper-case hexadecimal digits, the high digit first.
pub open spec fn hex_text(b: Seq<u8>) -> Seq<u8>
    decreases b.len(),
{
    if b.len() == 0 {
        Seq::empty()
    } else {
        hex_text(b.drop_last()) + seq![hex_digit_of(b.last() / 16), hex_digit_of(b.last() % 16)]
    }
}

/// The two digits of each byte stand at its two places in the text.
proof fn lemma_hex_text_at(b: Seq<u8>, i: int)
    requires
        0 <= i < b.len(),
    ensures
        hex_text(b).len() == 2 * b.len(),
        hex_text(b)[2 * i] == hex_digit_of(b[i] / 16),
        hex_text(b)[2 * i + 1] == hex_digit_of(b[i] % 16),
    decreases b.len(),
{
    lemma_hex_text_len(b.drop_last());
    if i < b.len() - 1 {
        lemma_hex_text_at(b.drop_last(), i);
    }
}

proof fn lemma_hex_text_len(b: Seq<u8>)
    ensures
        hex_text(b).len() == 2 * b.len(),
    decreases b.len(),
{
    if b.len() > 0 {
        lemma_hex_text_len(b.drop_last());
    }
}

/// Reading the body of a hexadecimal string from the digits of byte `i` on.
proof fn lemma_hex_text_body(d: Seq<u8>, p0: int, b: Seq<u8>, i: int)
    requires
        0 <= i <= b.len(),
        0 <= p0,
        p0 + 2 * b.len() < d.len(),
        d.subrange(p0, p0 + 2 * b.len()) == hex_text(b),
        d[p0 + 2 * b.len()] == 62u8,
    ensures
        hex_body(d, p0 + 2 * i, None, b.take(i)) == (
            p0 + 2 * b.len() + 1,
            Ok::<Seq<u8>, PdfError>(b),
        ),
    decreases b.len() - i,
{
    if i < b.len() {
        lemma_hex_text_at(b, i);
        let v = b[i];
        let h = hex_digit_of(v / 16);
        let l = hex_digit_of(v % 16);
        assert(d[p0 + 2 * i] == d.subrange(p0, p0 + 2 * b.len())[2 * i]);
        assert(d[p0 + 2 * i + 1] == d.subrange(p0, p0 + 2 * b.len())[2 * i + 1]);
        assert(d[p0 + 2 * i] == h && d[p0 + 2 * i + 1] == l);
        assert(spec_is_hex_digit(h) && !spec_is_white_space(h) && h != 62u8);
        assert(spec_is_hex_digit(l) && !spec_is_white_space(l) && l != 62u8);
        assert(spec_hex_value(h) == v / 16);
        assert(spec_hex_value(l) == v % 16);
        assert(((v / 16) * 16 + v % 16) as u8 == v);
        assert(b.take(i).push(v) =~= b.take(i + 1));
        lemma_hex_text_body(d, p0, b, i + 1);
        assert(hex_body(d, p0 + 2 * i + 1, Some(spec_hex_value(h)), b.take(i)) == hex_body(
            d,
            p0 + 2 * (i + 1),
            None,
            b.take(i + 1),
        ));
    } else {
        assert(b.take(i) =~= b);
    }
}

/// A hexadecimal string reads back as the bytes its digit pairs name: each
/// pair of digits, the high one first, makes one byte, and the string ends
/// at its `>`.
pub proof fn law_hex_string_reads_back(
    pre: Seq<u8>,
    b: Seq<u8>,
    rest: Seq<u8>,
    mode: ParseMode,
    x: Option<Seq<ObjectInfo>>,
)
    ensures
        spec_get_object(pre + seq![60u8] + hex_text(b) + seq![62u8] + rest, pre.len() as int, mode, x)
            == ((pre.len() + 2 * b.len() + 2) as int, Ok::<Obj, PdfError>(Obj::Str(b, true))),
{
    let d = pre + seq![60u8] + hex_text(b) + seq![62u8] + rest;
    let p = pre.len() as int;
    lemma_hex_text_len(b);
    assert(d.subrange(p + 1, p + 1 + 2 * b.len()) =~= hex_text(b));
    assert(d[p + 1 + 2 * b.len()] == 62u8);
    assert(b.take(0) =~= Seq::<u8>::empty());
    lemma_hex_text_body(d, p + 1, b, 0);
    assert(d[p] == 60u8);
    assert(d[p + 1] != 60u8) by {
        if b.len() > 0 {
            lemma_hex_text_at(b, 0);
            assert(d[p + 1] == hex_text(b)[0]);
        }
    }
    assert(skip_ws(d, p, false) == Some(p));
    assert(spec_next_word(d, p) == (p + 1, Ok::<(Seq<u8>, bool), PdfError>((seq![60u8], false))));
    assert(seq![60u8] != kw_true());
    assert(seq![60u8] != kw_false());
    assert(seq![60u8] != kw_null());
    assert(seq![60u8] != seq![40u8]);
}

/// The shape of an indirect object: two numbers, `obj`, an object, `endobj`.
pub proof fn lemma_indirect_shape(
    d: Seq<u8>,
    p: int,
    mode: ParseMode,
    x: Option<Seq<ObjectInfo>>,
    w1: Seq<u8>,
    w2: Seq<u8>,
    n: nat,
    g: nat,
    o: Obj,
    p1: int,
    p2: int,
    p3: int,
    p4: int,
    p5: int,
)
    requires
        0 <= p,
        spec_next_word(d, p) == (p1, Ok::<(Seq<u8>, bool), PdfError>((w1, true))),
        spec_word_unsigned(w1, true, u32::MAX as nat) == Ok::<nat, PdfError>(n),
        spec_next_word(d, p1) == (p2, Ok::<(Seq<u8>, bool), PdfError>((w2, true))),
        spec_word_unsigned(w2, true, u16::MAX as nat) == Ok::<nat, PdfError>(g),
        spec_next_word(d, p2) == (p3, Ok::<(Seq<u8>, bool), PdfError>((kw_obj(), false))),
        spec_get_object(d, p3, mode, x) == (p4, Ok::<Obj, PdfError>(o)),
        spec_next_word(d, p4) == (p5, Ok::<(Seq<u8>, bool), PdfError>((kw_endobj(), false))),
    ensures
        spec_get_indirect(d, p, mode, x) == (p5, Ok::<(u32, u16, Obj), PdfError>((n as u32, g as u16, o))),
{
}

// ---------------------------------------------------------------- startxref

/// `10^k`
pub open spec fn pow10(k: nat) -> nat
    decreases k,
{
    if k == 0 {
        1
    } else {
        10 * pow10((k - 1) as nat)
    }
}

/// A number below `10^k` has at most `k` decimal digits.
pub proof fn lemma_decimal_len(v: nat, k: nat)
    requires
        k >= 1,
        v < pow10(k),
    ensures
        decimal_digits(v).len() <= k,
    decreases k,
{
    if v >= 10 {
        if k == 1 {
            assert(pow10(1) == 10 * pow10(0));
        } else {
            let b2 = pow10((k - 1) as nat);
            assert(v / 10 < b2) by (nonlinear_arith)
                requires
                    v < 10 * b2,
            ;
            lemma_decimal_len(v / 10, (k - 1) as nat);
        }
    }
}

/// The last occurrence is found when none comes after it.
proof fn lemma_rfind_last(w: Seq<u8>, tag: Seq<u8>, k: int, j: int)
    requires
        0 <= k <= j,
        tag_at(w, k, tag),
        forall|i: int| k < i <= j ==> !tag_at(w, i, tag),
    ensures
        rfind_tag_from(w, tag, j) == Some(k),
    decreases j - k,
{
    if j > k {
        lemma_rfind_last(w, tag, k, j - 1);
    }
}

/// The end of a saved document, `startxref`, a number and `%%EOF`, names the
/// number as the offset of the cross-reference data.
pub proof fn law_startxref_found(front: Seq<u8>, v: u64)
    ensures
        spec_find_start_xref(
            front + startxref_out() + decimal_digits(v as nat) + seq![10u8] + eof_out(),
            ParseMode::Compatible,
        ).1 == Ok::<u64, PdfError>(v),
{
    let dv = decimal_digits(v as nat);
    let d = front + startxref_out() + dv + seq![10u8] + eof_out();
    let len = d.len() as int;
    reveal_with_fuel(pow10, 21);
    assert(pow10(20) == 100000000000000000000);
    lemma_decimal_len(v as nat, 20);
    lemma_decimal_word(v as nat, u64::MAX as nat);
    lemma_decimal_digits_props(v as nat);
    let q = front.len() as int;
    let start = xref_window_start(len);
    let w = d.subrange(start, len);
    let rel = q - start;
    assert(q >= start);
    assert(w.subrange(rel, rel + 9) =~= kw_startxref());
    assert(tag_at(w, rel, kw_startxref()));
    assert forall|i: int| rel < i <= w.len() - 9 implies !tag_at(w, i, kw_startxref()) by {
        let j = start + i;
        assert(w[i] == d[j]);
        if j < q + 10 {
            assert(d[j] == startxref_out()[j - q]);
        } else if j < q + 10 + dv.len() {
            assert(d[j] == dv[j - q - 10]);
            assert(crate::parser::character::spec_is_digit(dv[j - q - 10]));
        } else {
            assert(d[j] == (seq![10u8] + eof_out())[j - q - 10 - dv.len()]);
        }
        if tag_at(w, i, kw_startxref()) {
            assert(w.subrange(i, i + 9)[0] == w[i]);
        }
    }
    lemma_rfind_last(w, kw_startxref(), rel, w.len() - 9);
    assert(rfind_tag(w, kw_startxref()) == Some(rel));
    let p = start + rel + 9;
    assert(d[p] == 10u8);
    lemma_next_word_skips_space(d, p);
    assert(d.subrange(p + 1, p + 1 + dv.len()) =~= dv);
    assert(d[p + 1 + dv.len()] == 10u8);
    lemma_word_at(d, p + 1, dv);
}

// ---------------------------------------------------------------- xref rows

/// A non-empty run of decimal digits is a number word of its value.
pub proof fn lemma_digit_word(w: Seq<u8>, max: nat)
    requires
        w.len() > 0,
        all_digits(w),
        digits_value(w) <= max,
    ensures
        word_bytes(w),
        spec_is_number_token(w),
        spec_word_unsigned(w, true, max) == Ok::<nat, PdfError>(digits_value(w)),
{
    assert forall|i: int| 0 <= i < w.len() implies !spec_is_delimiter(#[trigger] w[i])
        && !spec_is_white_space(w[i]) by {
        assert(crate::parser::character::spec_is_digit(w[i]));
    }
    assert(crate::parser::character::spec_is_digit(w[0]));
    assert(strip_sign(w) == (1int, w));
    lemma_digit_prefix_all(w);
    assert(w.take(w.len() as int) =~= w);
    assert(spec_parse_unsigned(w, max) == Some(digits_value(w)));
}

/// Zeros have the value 0.
proof fn lemma_zeros_value(z: nat)
    ensures
        digits_value(Seq::new(z, |i: int| 48u8)) == 0,
    decreases z,
{
    if z > 0 {
        assert(Seq::new(z, |i: int| 48u8).drop_last() =~= Seq::new((z - 1) as nat, |i: int| 48u8));
        lemma_zeros_value((z - 1) as nat);
    }
}

/// Zeros in front leave the value as it is.
proof fn lemma_leading_zeros(z: nat, s: Seq<u8>)
    ensures
        digits_value(Seq::new(z, |i: int| 48u8) + s) == digits_value(s),
    decreases s.len(),
{
    let zs = Seq::new(z, |i: int| 48u8);
    if s.len() == 0 {
        assert(zs + s =~= zs);
        lemma_zeros_value(z);
    } else {
        assert((zs + s).drop_last() =~= zs + s.drop_last());
        assert((zs + s).last() == s.last());
        lemma_leading_zeros(z, s.drop_last());
    }
}

/// A zero-padded number is a number word of its value.
pub proof fn lemma_padded_word(v: nat, width: nat, max: nat)
    requires
        v <= max,
    ensures
        padded(v, width).len() > 0,
        word_bytes(padded(v, width)),
        spec_is_number_token(padded(v, width)),
        spec_word_unsigned(padded(v, width), true, max) == Ok::<nat, PdfError>(v),
        padded(v, width).len() >= width,
{
    lemma_decimal_digits_props(v);
    let d = decimal_digits(v);
    let w = padded(v, width);
    if d.len() < width {
        let z = (width - d.len()) as nat;
        lemma_leading_zeros(z, d);
        assert forall|i: int| 0 <= i < w.len() implies crate::parser::character::spec_is_digit(
            #[trigger] w[i],
        ) by {
            if i >= z {
                assert(w[i] == d[i - z]);
            }
        }
    }
    lemma_digit_word(w, max);
}

/// The state that a row's letter stands for.
pub open spec fn row_state(c: u8) -> ObjectState {
    if c == 110u8 {
        ObjectState::Normal
    } else {
        ObjectState::Free
    }
}

/// One written row reads back as its offset, generation and state; reading
/// stops after the state letter.
pub proof fn lemma_row_entry(d: Seq<u8>, p: int, row: XrefRow)
    requires
        0 <= p,
        p + row_bytes(row).len() <= d.len(),
        d.subrange(p, p + row_bytes(row).len()) == row_bytes(row),
        row.2 == 110u8 || row.2 == 102u8,
    ensures
        spec_compat_entry(d, p) == (
            p + row_bytes(row).len() - 2,
            Ok::<(u64, u32, ObjectState), PdfError>((row.0, row.1, row_state(row.2))),
        ),
{
    let po = padded(row.0 as nat, 10);
    let pg = padded(row.1 as nat, 5);
    lemma_padded_word(row.0 as nat, 10, u64::MAX as nat);
    lemma_padded_word(row.1 as nat, 5, u32::MAX as nat);
    let rb = row_bytes(row);
    assert(rb =~= po + seq![32u8] + pg + seq![32u8, row.2, 32u8, 10u8]);
    let a = p + po.len();
    let b = a + 1 + pg.len();
    assert forall|i: int| 0 <= i < rb.len() implies #[trigger] d[p + i] == rb[i] by {
        assert(d[p + i] == d.subrange(p, p + rb.len())[i]);
    }
    assert(d.subrange(p, a) =~= po);
    assert(d[a] == 32u8);
    lemma_word_at(d, p, po);
    lemma_next_word_skips_space(d, a);
    assert forall|j: int| 0 <= j < pg.len() implies #[trigger] d.subrange(a + 1, b)[j] == pg[j] by {
        assert(d[p + (po.len() + 1 + j)] == rb[po.len() + 1 + j]);
    }
    assert(d.subrange(a + 1, b) =~= pg);
    assert(d[p + (po.len() + 1 + pg.len())] == rb[(po.len() + 1 + pg.len()) as int]);
    assert(d[b] == 32u8);
    lemma_word_at(d, a + 1, pg);
    lemma_next_word_skips_space(d, b);
    let st = seq![row.2];
    assert(d[p + (po.len() + 2 + pg.len())] == rb[(po.len() + 2 + pg.len()) as int]);
    assert(d[p + (po.len() + 3 + pg.len())] == rb[(po.len() + 3 + pg.len()) as int]);
    assert(d.subrange(b + 1, b + 2) =~= st);
    assert(d[b + 2] == 32u8);
    assert(word_bytes(st));
    lemma_word_at(d, b + 1, st);
}

/// White space before a word is skipped, however much of it there is.
pub proof fn lemma_next_word_skips_run(d: Seq<u8>, q: int, r: int)
    requires
        0 <= q <= r,
        r < d.len(),
        forall|i: int| q <= i < r ==> spec_is_white_space(#[trigger] d[i]),
    ensures
        spec_next_word(d, q) == spec_next_word(d, r),
    decreases r - q,
{
    if q < r {
        lemma_next_word_skips_space(d, q);
        lemma_next_word_skips_run(d, q + 1, r);
    }
}

/// Rows written one after the other.
pub proof fn lemma_rows_bytes_concat(a: Seq<XrefRow>, b: Seq<XrefRow>)
    ensures
        rows_bytes(a + b) == rows_bytes(a) + rows_bytes(b),
    decreases b.len(),
{
    if b.len() == 0 {
        assert(a + b =~= a);
        assert(rows_bytes(b) =~= Seq::<u8>::empty());
    } else {
        lemma_rows_bytes_concat(a, b.drop_last());
        assert((a + b).drop_last() =~= a + b.drop_last());
        assert((a + b).last() == b.last());
    }
}

/// The entry that row `j` of a table gives.
pub open spec fn row_info(rows: Seq<XrefRow>, j: int) -> ObjectInfo {
    ObjectInfo { objnum: j as u32, offset: rows[j].0, gennum: rows[j].1, state: row_state(rows[j].2) }
}

/// The entries that the rows give, in order.
pub open spec fn row_infos(rows: Seq<XrefRow>, n: nat) -> Seq<ObjectInfo> {
    Seq::new(n, |j: int| row_info(rows, j))
}

/// Where row `i` starts.
pub open spec fn row_start(base: int, rows: Seq<XrefRow>, i: int) -> int {
    base + rows_bytes(rows.take(i)).len()
}

/// Row `i` stands at its start.
proof fn lemma_row_at(d: Seq<u8>, base: int, rows: Seq<XrefRow>, i: int)
    requires
        0 <= base,
        0 <= i < rows.len(),
        base + rows_bytes(rows).len() <= d.len(),
        d.subrange(base, base + rows_bytes(rows).len()) == rows_bytes(rows),
    ensures
        row_start(base, rows, i + 1) == row_start(base, rows, i) + row_bytes(rows[i]).len(),
        row_start(base, rows, i + 1) <= base + rows_bytes(rows).len(),
        d.subrange(row_start(base, rows, i), row_start(base, rows, i + 1)) == row_bytes(rows[i]),
{
    let a = rows.take(i);
    let one = seq![rows[i]];
    let b = rows.skip(i + 1);
    assert(rows =~= a + one + b);
    assert(rows.take(i + 1) =~= a + one);
    lemma_rows_bytes_concat(a + one, b);
    lemma_rows_bytes_concat(a, one);
    assert(one.drop_last() =~= Seq::<XrefRow>::empty());
    assert(rows_bytes(Seq::<XrefRow>::empty()) =~= Seq::<u8>::empty());
    assert(rows_bytes(one) =~= row_bytes(rows[i]));
    let s0 = row_start(base, rows, i);
    let rb = row_bytes(rows[i]);
    assert forall|j: int| 0 <= j < rb.len() implies #[trigger] d.subrange(s0, s0 + rb.len())[j] == rb[j] by {
        assert(d[s0 + j] == d.subrange(base, base + rows_bytes(rows).len())[s0 + j - base]);
        assert(rows_bytes(rows)[s0 + j - base] == rb[j]);
    }
    assert(d.subrange(s0, s0 + rb.len()) =~= rb);
}

/// Reading the rows `i..` of a written table from `q`, where only white
/// space stands before row `i`, gives every entry of the table.
proof fn lemma_subsection_rows(d: Seq<u8>, base: int, rows: Seq<XrefRow>, i: nat, q: int)
    requires
        0 <= base,
        i <= rows.len(),
        rows.len() <= u32::MAX,
        base + rows_bytes(rows).len() < d.len(),
        d.subrange(base, base + rows_bytes(rows).len()) == rows_bytes(rows),
        forall|j: int| 0 <= j < rows.len() ==> (#[trigger] rows[j]).2 == 110u8 || rows[j].2 == 102u8,
        0 <= q <= row_start(base, rows, i as int),
        forall|j: int| q <= j < row_start(base, rows, i as int) ==> spec_is_white_space(#[trigger] d[j]),
        i == rows.len() ==> q == row_start(base, rows, i as int) - 2,
    ensures
        spec_subsection(d, q, ParseMode::Compatible, 0, rows.len() as u32, i, row_infos(rows, i)) == (
            row_start(base, rows, rows.len() as int) - 2,
            Ok::<Seq<ObjectInfo>, PdfError>(row_infos(rows, rows.len())),
        ),
    decreases rows.len() - i,
{
    if i < rows.len() {
        let r = row_start(base, rows, i as int);
        lemma_row_at(d, base, rows, i as int);
        let rb = row_bytes(rows[i as int]);
        lemma_row_entry(d, r, rows[i as int]);
        lemma_next_word_skips_run(d, q, r);
        assert(spec_compat_entry(d, q) == spec_compat_entry(d, r));
        let r2 = row_start(base, rows, (i + 1) as int);
        assert(d[r2 - 2] == rb[rb.len() - 2]);
        assert(d[r2 - 1] == rb[rb.len() - 1]);
        assert(rb[rb.len() - 2] == 32u8 && rb[rb.len() - 1] == 10u8);
        assert(row_infos(rows, i).push(row_info(rows, i as int)) =~= row_infos(rows, i + 1));
        lemma_subsection_rows(d, base, rows, i + 1, r2 - 2);
    } else {
        assert(rows.take(rows.len() as int) =~= rows);
    }
}

/// The subsection loop over one subsection that the keyword `trailer` follows.
proof fn lemma_section_loop_shape(
    d: Seq<u8>,
    p6: int,
    cw: Seq<u8>,
    n: nat,
    pc: int,
    objs: Seq<ObjectInfo>,
    pe: int,
    pt: int,
)
    requires
        0 <= p6,
        0 <= pe,
        n <= u32::MAX,
        spec_word_unsigned(seq![48u8], true, u32::MAX as nat) == Ok::<nat, PdfError>(0),
        spec_next_word(d, p6) == (pc, Ok::<(Seq<u8>, bool), PdfError>((cw, true))),
        spec_word_unsigned(cw, true, u32::MAX as nat) == Ok::<nat, PdfError>(n),
        spec_subsection(d, pc, ParseMode::Compatible, 0, n as u32, 0, Seq::empty()) == (
            pe,
            Ok::<Seq<ObjectInfo>, PdfError>(objs),
        ),
        spec_next_word(d, pe) == (pt, Ok::<(Seq<u8>, bool), PdfError>((kw_trailer(), false))),
    ensures
        spec_section_loop(d, p6, ParseMode::Compatible, seq![48u8], true, Map::empty()) == (
            pt,
            Ok::<(Seq<u8>, Map<u32, ObjectInfo>), PdfError>((kw_trailer(), map_extend(Map::empty(), objs))),
        ),
{
    let m1 = map_extend(Map::empty(), objs);
    assert(spec_section_loop(d, pe, ParseMode::Compatible, cw, true, m1) == (
        pt,
        Ok::<(Seq<u8>, Map<u32, ObjectInfo>), PdfError>((kw_trailer(), m1)),
    ));
}

/// A written xref table reads back: the keyword `xref`, the subsection from
/// object 0, and the entry of every row, up to the keyword `trailer` that
/// follows it.
#[verifier::spinoff_prover]
#[verifier::rlimit(60)]
pub proof fn law_xref_table_reads_back(front: Seq<u8>, rows: Seq<XrefRow>, tail: Seq<u8>)
    requires
        0 < rows.len() <= u32::MAX,
        forall|j: int| 0 <= j < rows.len() ==> (#[trigger] rows[j]).2 == 110u8 || rows[j].2 == 102u8,
        tail.len() > 7,
        tail.subrange(0, 7) == kw_trailer(),
        spec_is_white_space(tail[7]),
    ensures
        ({
            let d = front + xref_table_bytes(rows) + tail;
            let p = front.len() as int;
            let t0 = p + xref_table_bytes(rows).len();
            &&& spec_next_word(d, p) == (p + 4, Ok::<(Seq<u8>, bool), PdfError>((kw_xref(), false)))
            &&& spec_next_word(d, p + 4) == (p + 6, Ok::<(Seq<u8>, bool), PdfError>((seq![48u8], true)))
            &&& spec_section_loop(d, p + 6, ParseMode::Compatible, seq![48u8], true, Map::empty())
                == (t0 + 7, Ok::<(Seq<u8>, Map<u32, ObjectInfo>), PdfError>((
                kw_trailer(),
                map_extend(Map::empty(), row_infos(rows, rows.len())),
            )))
        }),
{
    let d = front + xref_table_bytes(rows) + tail;
    let p = front.len() as int;
    let dl = decimal_digits(rows.len());
    let ld = dl.len() as int;
    let rb = rows_bytes(rows);
    let base = p + 8 + ld;
    let t0 = p + xref_table_bytes(rows).len();
    assert(d =~= front + seq![120u8, 114u8, 101u8, 102u8] + seq![10u8, 48u8, 32u8] + dl + seq![10u8]
        + rb + tail);
    lemma_decimal_word(rows.len(), u32::MAX as nat);
    assert(digits_value(seq![48u8]) == 0) by {
        assert(seq![48u8].drop_last() =~= Seq::<u8>::empty());
        assert(digits_value(Seq::<u8>::empty()) == 0);
        assert(seq![48u8].last() == 48u8);
    }
    assert(all_digits(seq![48u8]));
    lemma_digit_word(seq![48u8], u32::MAX as nat);
    assert(d.subrange(p, p + 4) =~= kw_xref());
    assert(word_bytes(kw_xref()));
    assert(!spec_is_number_token(kw_xref()));
    lemma_word_at(d, p, kw_xref());
    lemma_next_word_skips_space(d, p + 4);
    assert(d.subrange(p + 5, p + 6) =~= seq![48u8]);
    lemma_word_at(d, p + 5, seq![48u8]);
    lemma_next_word_skips_space(d, p + 6);
    assert(d.subrange(p + 7, p + 7 + ld) =~= dl);
    assert(d[p + 7 + ld] == 10u8);
    lemma_word_at(d, p + 7, dl);
    assert(d.subrange(base, base + rb.len()) =~= rb);
    assert(rows.take(0) =~= Seq::<XrefRow>::empty());
    assert(rows_bytes(Seq::<XrefRow>::empty()) =~= Seq::<u8>::empty());
    assert(row_infos(rows, 0) =~= Seq::<ObjectInfo>::empty());
    lemma_subsection_rows(d, base, rows, 0, p + 7 + ld);
    assert(rows.take(rows.len() as int) =~= rows);
    let rend = base + rb.len();
    assert(rend == t0);
    lemma_row_at(d, base, rows, rows.len() - 1);
    let last = row_bytes(rows[rows.len() - 1]);
    assert(d[rend - 2] == last[last.len() - 2]);
    assert(d[rend - 1] == last[last.len() - 1]);
    lemma_next_word_skips_run(d, rend - 2, rend);
    assert(d.subrange(rend, rend + 7) =~= kw_trailer());
    assert(d[rend + 7] == tail[7]);
    assert(word_bytes(kw_trailer()));
    assert(!spec_is_number_token(kw_trailer()));
    lemma_word_at(d, rend, kw_trailer());
    lemma_section_loop_shape(
        d,
        p + 6,
        dl,
        rows.len(),
        p + 7 + ld,
        row_infos(rows, rows.len()),
        rend - 2,
        rend + 7,
    );
}

// ---------------------------------------------------------------- simple dictionaries

/// The entries of a concatenation are written one part after the other.
pub proof fn lemma_entries_bytes_concat(a: Seq<(Seq<u8>, Obj)>, b: Seq<(Seq<u8>, Obj)>)
    ensures
        entries_bytes(a + b) == entries_bytes(a) + entries_bytes(b),
    decreases b.len(),
{
    if b.len() == 0 {
        assert(a + b =~= a);
        assert(entries_bytes(b) =~= Seq::<u8>::empty());
    } else {
        lemma_entries_bytes_concat(a, b.drop_last());
        assert((a + b).drop_last() =~= a + b.drop_last());
        assert((a + b)[(a + b).len() - 1] == b[b.len() - 1]);
    }
}

/// Name bytes that need no `#` escape to be read back.
pub open spec fn plain_name(k: Seq<u8>) -> bool {
    word_bytes(k) && forall|i: int| 0 <= i < k.len() ==> #[trigger] k[i] != 35u8
}

/// A name without `#` decodes to itself.
pub proof fn lemma_decode_plain(k: Seq<u8>, i: int)
    requires
        plain_name(k),
        1 <= i <= k.len() + 1,
    ensures
        decode_name_acc(seq![47u8] + k, i, k.take(i - 1)) == Some(k),
    decreases k.len() + 1 - i,
{
    let s = seq![47u8] + k;
    if i <= k.len() {
        assert(s[i] == k[i - 1]);
        assert(k.take(i - 1).push(k[i - 1]) =~= k.take(i));
        lemma_decode_plain(k, i + 1);
    } else {
        assert(k.take(i - 1) =~= k);
    }
}

/// One entry of a dictionary body: a name, then its value.
pub proof fn lemma_dict_body_step(
    d: Seq<u8>,
    p: int,
    mode: ParseMode,
    x: Option<Seq<ObjectInfo>>,
    acc: Seq<(Seq<u8>, Obj)>,
    k: Seq<u8>,
    v: Obj,
    e: int,
    p2: int,
)
    requires
        0 <= p,
        spec_next_word(d, p) == (e, Ok::<(Seq<u8>, bool), PdfError>((seq![47u8] + k, false))),
        spec_decode_name(seq![47u8] + k) == Some(k),
        !(mode == ParseMode::Strict && crate::objects::dict_get(acc, k) is Some),
        spec_get_object(d, e, mode, x) == (p2, Ok::<Obj, PdfError>(v)),
        p2 >= e,
    ensures
        spec_dict_body(d, p, mode, x, acc) == spec_dict_body(d, p2, mode, x, dict_insert(acc, k, v)),
{
    let raw = seq![47u8] + k;
    assert(raw[0] == 47u8);
    assert(raw != kw_dict_close()) by {
        assert(kw_dict_close()[0] == 62u8);
    }
    assert(raw != kw_endobj()) by {
        assert(kw_endobj()[0] == 101u8);
    }
}

/// Where entry `j` of a written dictionary starts.
pub open spec fn entry_start(base: int, es: Seq<(Seq<u8>, Obj)>, j: int) -> int {
    base + entries_bytes(es.take(j)).len()
}

/// Entry `j` stands at its start.
pub proof fn lemma_entry_at(d: Seq<u8>, base: int, es: Seq<(Seq<u8>, Obj)>, j: int)
    requires
        0 <= base,
        0 <= j < es.len(),
        base + entries_bytes(es).len() <= d.len(),
        d.subrange(base, base + entries_bytes(es).len()) == entries_bytes(es),
    ensures
        entry_start(base, es, j + 1) == entry_start(base, es, j) + entry_bytes(
            es[j].0,
            obj_bytes(es[j].1),
        ).len(),
        entry_start(base, es, j + 1) <= base + entries_bytes(es).len(),
        d.subrange(entry_start(base, es, j), entry_start(base, es, j + 1)) == entry_bytes(
            es[j].0,
            obj_bytes(es[j].1),
        ),
{
    let a = es.take(j);
    let one = seq![es[j]];
    let b = es.skip(j + 1);
    assert(es =~= a + one + b);
    assert(es.take(j + 1) =~= a + one);
    lemma_entries_bytes_concat(a + one, b);
    lemma_entries_bytes_concat(a, one);
    assert(one.drop_last() =~= Seq::<(Seq<u8>, Obj)>::empty());
    assert(entries_bytes(Seq::<(Seq<u8>, Obj)>::empty()) =~= Seq::<u8>::empty());
    let eb = entry_bytes(es[j].0, obj_bytes(es[j].1));
    assert(entries_bytes(one) =~= eb);
    let s0 = entry_start(base, es, j);
    assert forall|i: int| 0 <= i < eb.len() implies #[trigger] d.subrange(s0, s0 + eb.len())[i] == eb[i] by {
        assert(d[s0 + i] == d.subrange(base, base + entries_bytes(es).len())[s0 + i - base]);
        assert(entries_bytes(es)[s0 + i - base] == eb[i]);
    }
    assert(d.subrange(s0, s0 + eb.len()) =~= eb);
}

// ---------------------------------------------------------------- saved documents

/// The entries that the first `n` rows give, by object number.
pub open spec fn row_map(rows: Seq<XrefRow>, n: nat) -> Map<u32, ObjectInfo> {
    Map::new(|j: u32| j < n, |j: u32| row_info(rows, j as int))
}

/// Entering the rows one after the other gives each object number its row.
proof fn lemma_row_map(rows: Seq<XrefRow>, n: nat)
    requires
        n <= u32::MAX + 1,
    ensures
        map_extend(Map::empty(), row_infos(rows, n)) == row_map(rows, n),
    decreases n,
{
    if n == 0 {
        assert(row_infos(rows, 0) =~= Seq::<ObjectInfo>::empty());
        assert(row_map(rows, 0) =~= Map::<u32, ObjectInfo>::empty());
    } else {
        let m = (n - 1) as nat;
        lemma_row_map(rows, m);
        assert(row_infos(rows, n) =~= row_infos(rows, m).push(row_info(rows, m as int)));
        lemma_map_extend_push(Map::empty(), row_infos(rows, m), row_info(rows, m as int));
        assert(row_info(rows, m as int).objnum == m);
        assert(row_map(rows, m).insert(m as u32, row_info(rows, m as int)) =~= row_map(rows, n));
    }
}

/// Every row written is in use or free.
proof fn lemma_rows_letters(items: Seq<(ObjectId, Option<Obj>)>, size: nat)
    requires
        forall|i: int| 0 <= i < items.len() ==> #[trigger] items[i].0.obj_num < size,
    ensures
        forall|j: int|
            0 <= j < xref_rows(items, size).len() ==> (#[trigger] xref_rows(items, size)[j]).2 == 110u8
                || xref_rows(items, size)[j].2 == 102u8,
    decreases items.len(),
{
    if items.len() > 0 {
        let its = items.drop_last();
        assert forall|i: int| 0 <= i < its.len() implies #[trigger] its[i].0.obj_num < size by {
            assert(its[i] == items[i]);
        }
        lemma_rows_letters(its, size);
        lemma_xref_rows_len(its, size);
        assert(items[items.len() - 1].0.obj_num < size);
        let prev = xref_rows(its, size);
        assert forall|j: int| 0 <= j < xref_rows(items, size).len() implies (#[trigger] xref_rows(
            items,
            size,
        )[j]).2 == 110u8 || xref_rows(items, size)[j].2 == 102u8 by {
            assert(prev[j].2 == 110u8 || prev[j].2 == 102u8);
        }
    }
}

/// No entry has the key `q`.
pub open spec fn lacks_key(es: Seq<(Seq<u8>, Obj)>, q: Seq<u8>) -> bool {
    forall|j: int| 0 <= j < es.len() ==> (#[trigger] es[j]).0 != q
}

/// Inserting another key leaves `q` out.
proof fn lemma_insert_lacks(es: Seq<(Seq<u8>, Obj)>, k: Seq<u8>, v: Obj, q: Seq<u8>)
    requires
        lacks_key(es, q),
        k != q,
    ensures
        lacks_key(dict_insert(es, k, v), q),
{
    lemma_dict_find_from(es, k, 0);
}

/// The kept entries of a trailer have no `Prev`.
proof fn lemma_kept_lacks_prev(t: Seq<(Seq<u8>, Obj)>)
    ensures
        lacks_key(kept_entries(t), key_prev()),
    decreases t.len(),
{
    if t.len() > 0 {
        lemma_kept_lacks_prev(t.drop_last());
        let (k, v) = t.last();
        if !dropped_key(k) {
            lemma_insert_lacks(kept_entries(t.drop_last()), k, v, key_prev());
        }
    }
}

/// The keys of cross-reference data in a trailer: `Prev`, `XRefStm`, `Type`,
/// `W`, `Index`, `Filter`, `DecodeParms` and `Length`.
pub open spec fn cross_reference_key(k: Seq<u8>) -> bool {
    ||| k =~= seq![80u8, 114u8, 101u8, 118u8]
    ||| k =~= seq![88u8, 82u8, 101u8, 102u8, 83u8, 116u8, 109u8]
    ||| k =~= seq![84u8, 121u8, 112u8, 101u8]
    ||| k =~= seq![87u8]
    ||| k =~= seq![73u8, 110u8, 100u8, 101u8, 120u8]
    ||| k =~= seq![70u8, 105u8, 108u8, 116u8, 101u8, 114u8]
    ||| k =~= seq![68u8, 101u8, 99u8, 111u8, 100u8, 101u8, 80u8, 97u8, 114u8, 109u8, 115u8]
    ||| k =~= seq![76u8, 101u8, 110u8, 103u8, 116u8, 104u8]
}

/// Entries with distinct keys.
pub open spec fn distinct_keys(t: Seq<(Seq<u8>, Obj)>) -> bool {
    forall|i: int, j: int| 0 <= i < j < t.len() ==> (#[trigger] t[i]).0 != (#[trigger] t[j]).0
}

/// What a key gives after one more entry at the end.
proof fn lemma_dict_get_push(es: Seq<(Seq<u8>, Obj)>, e: (Seq<u8>, Obj), k: Seq<u8>)
    ensures
        crate::objects::dict_get(es.push(e), k) == match crate::objects::dict_get(es, k) {
            Some(v) => Some(v),
            None => if e.0 == k {
                Some(e.1)
            } else {
                None
            },
        },
{
    let r = es.push(e);
    assert(r[es.len() as int] == e);
    lemma_dict_find_from(es, k, 0);
    lemma_dict_find_from(r, k, 0);
    if crate::objects::dict_find(r, k) is Some {
        let j = crate::objects::dict_find(r, k)->0;
        if j < es.len() {
            assert(r[j] == es[j]);
        }
    }
    if crate::objects::dict_find(es, k) is Some {
        let j = crate::objects::dict_find(es, k)->0;
        assert(r[j] == es[j]);
    }
}

/// The kept entries of a trailer with distinct keys: a key of
/// cross-reference data gives nothing, any other key what it gave.
proof fn lemma_kept_entries_get(t: Seq<(Seq<u8>, Obj)>, k: Seq<u8>)
    requires
        distinct_keys(t),
    ensures
        cross_reference_key(k) ==> crate::objects::dict_get(kept_entries(t), k) is None,
        !cross_reference_key(k) ==> crate::objects::dict_get(kept_entries(t), k)
            == crate::objects::dict_get(t, k),
    decreases t.len(),
{
    if t.len() == 0 {
        lemma_dict_find_from(t, k, 0);
        lemma_dict_find_from(kept_entries(t), k, 0);
    } else {
        let t0 = t.drop_last();
        let (kl, vl) = t.last();
        assert(distinct_keys(t0)) by {
            assert forall|i: int, j: int| 0 <= i < j < t0.len() implies (#[trigger] t0[i]).0 != (
            #[trigger] t0[j]).0 by {
                assert(t0[i] == t[i] && t0[j] == t[j]);
            }
        }
        lemma_kept_entries_get(t0, k);
        assert(t =~= t0.push((kl, vl)));
        lemma_dict_get_push(t0, (kl, vl), k);
        lemma_dict_find_from(t0, kl, 0);
        if crate::objects::dict_find(t0, kl) is Some {
            let j = crate::objects::dict_find(t0, kl)->0;
            assert(t[j] == t0[j]);
            assert(t[t.len() - 1].0 == kl);
        }
        assert(crate::objects::dict_get(t0, kl) is None);
        assert(dropped_key(kl) == cross_reference_key(kl));
        if !dropped_key(kl) {
            if kl == k {
                crate::read_back::lemma_dict_insert_get(kept_entries(t0), kl, vl);
            } else {
                crate::read_back::lemma_dict_insert_other(kept_entries(t0), kl, vl, k);
            }
        }
    }
}

/// Saving keeps the trailer: the written trailer has `Size` set to the size
/// of the xref table, leaves out the keys of cross-reference data (`Prev`,
/// `XRefStm`, `Type`, `W`, `Index`, `Filter`, `DecodeParms`, `Length`), and
/// gives every other key (`Root`, `Info`, `ID`, ...) the value that it had.
pub proof fn law_saved_trailer_keeps_entries(t: Seq<(Seq<u8>, Obj)>, size: nat, k: Seq<u8>)
    requires
        distinct_keys(t),
    ensures
        k =~= seq![83u8, 105u8, 122u8, 101u8] ==> crate::objects::dict_get(trailer_out(t, size), k)
            == Some(Obj::Number(decimal_digits(size))),
        cross_reference_key(k) ==> crate::objects::dict_get(trailer_out(t, size), k) is None,
        !(k =~= seq![83u8, 105u8, 122u8, 101u8]) && !cross_reference_key(k) ==> crate::objects::dict_get(
            trailer_out(t, size),
            k,
        ) == crate::objects::dict_get(t, k),
{
    lemma_kept_entries_get(t, k);
    let v = Obj::Number(decimal_digits(size));
    if k =~= key_size_out() {
        crate::read_back::lemma_dict_insert_get(kept_entries(t), key_size_out(), v);
    } else {
        crate::read_back::lemma_dict_insert_other(kept_entries(t), key_size_out(), v, k);
    }
}

/// A written trailer, as read back, names no previous section.
proof fn lemma_trailer_out_no_prev(t: Seq<(Seq<u8>, Obj)>, size: nat)
    ensures
        spec_prev(read_entries(trailer_out(t, size))) == Ok::<u64, PdfError>(0),
{
    lemma_kept_lacks_prev(t);
    assert(key_size_out() != key_prev()) by {
        assert(key_size_out()[0] != key_prev()[0]);
    }
    lemma_insert_lacks(kept_entries(t), key_size_out(), Obj::Number(decimal_digits(size)), key_prev());
    let r = read_entries(trailer_out(t, size));
    lemma_read_entries_keys(trailer_out(t, size));
    assert(lacks_key(r, key_prev())) by {
        assert forall|j: int| 0 <= j < r.len() implies (#[trigger] r[j]).0 != key_prev() by {
            assert(r[j].0 == trailer_out(t, size)[j].0);
        }
    }
    lemma_dict_find_from(r, key_prev(), 0);
}

/// An xref section read from its parts: the keyword `xref`, the subsection
/// loop up to `trailer`, and the trailer dictionary.
proof fn lemma_section_from_parts(
    d: Seq<u8>,
    p: int,
    t0: int,
    e: int,
    mx: Map<u32, ObjectInfo>,
    tr: Seq<(Seq<u8>, Obj)>,
    x: Option<Seq<ObjectInfo>>,
)
    requires
        spec_next_word(d, p) == (p + 4, Ok::<(Seq<u8>, bool), PdfError>((kw_xref(), false))),
        spec_next_word(d, p + 4) == (p + 6, Ok::<(Seq<u8>, bool), PdfError>((seq![48u8], true))),
        spec_section_loop(d, p + 6, ParseMode::Compatible, seq![48u8], true, Map::empty()) == (
            t0 + 7,
            Ok::<(Seq<u8>, Map<u32, ObjectInfo>), PdfError>((kw_trailer(), mx)),
        ),
        spec_get_object(d, t0 + 7, ParseMode::Compatible, x) == (e, Ok::<Obj, PdfError>(Obj::Dict(tr))),
    ensures
        spec_parse_xref_section(d, p, ParseMode::Compatible, x).1 == Ok::<
            Option<(Map<u32, ObjectInfo>, Seq<(Seq<u8>, Obj)>)>,
            PdfError,
        >(Some((mx, tr))),
{
}

/// A written xref table followed by a written trailer whose entries read
/// back, and then a word, reads back as an xref section.
#[verifier::spinoff_prover]
#[verifier::rlimit(60)]
proof fn lemma_table_then_trailer(
    front: Seq<u8>,
    rows: Seq<XrefRow>,
    tr: Seq<(Seq<u8>, Obj)>,
    w: Seq<u8>,
    rest: Seq<u8>,
    x: Option<Seq<ObjectInfo>>,
)
    requires
        0 < rows.len() <= u32::MAX,
        forall|j: int| 0 <= j < rows.len() ==> (#[trigger] rows[j]).2 == 110u8 || rows[j].2 == 102u8,
        readable_entries(tr),
        w.len() > 0,
        word_bytes(w),
        !spec_is_number_token(w),
        w != kw_stream(),
        w != kw_r(),
        rest.len() > 0,
        spec_is_white_space(rest[0]),
    ensures
        ({
            let d = front + xref_table_bytes(rows) + seq![116u8, 114u8, 97u8, 105u8, 108u8, 101u8, 114u8, 10u8]
                + obj_bytes(Obj::Dict(tr)) + seq![10u8] + w + rest;
            let p = front.len() as int;
            &&& spec_next_word(d, p).1 == Ok::<(Seq<u8>, bool), PdfError>((kw_xref(), false))
            &&& spec_parse_xref_section(d, p, ParseMode::Compatible, x).1 == Ok::<
                Option<(Map<u32, ObjectInfo>, Seq<(Seq<u8>, Obj)>)>,
                PdfError,
            >(Some((map_extend(Map::empty(), row_infos(rows, rows.len())), read_entries(tr))))
        }),
{
    let xb = xref_table_bytes(rows);
    let kt = seq![116u8, 114u8, 97u8, 105u8, 108u8, 101u8, 114u8, 10u8];
    let ob = obj_bytes(Obj::Dict(tr));
    let d = front + xb + kt + ob + seq![10u8] + w + rest;
    let tail = kt + ob + seq![10u8] + w + rest;
    let p = front.len() as int;
    let t0 = p + xb.len();
    let front2 = front + xb + kt;
    let q: int = (front2.len() + ob.len()) as int;
    assert(d == front + xb + tail) by {
        assert(d =~= front + xb + tail);
    }
    assert(tail.subrange(0, 7) =~= kw_trailer());
    assert(tail[7] == 10u8);
    law_xref_table_reads_back(front, rows, tail);
    assert(d[t0 + 7] == 10u8);
    lemma_get_object_skips_space(d, t0 + 7, ParseMode::Compatible, x);
    assert(front2.len() == t0 + 8);
    assert(d.subrange(t0 + 8, q) =~= ob);
    assert(d[q] == 10u8);
    assert(d.subrange(q + 1, q + 1 + w.len()) =~= w);
    assert(d[q + 1 + w.len()] == rest[0]);
    lemma_word_after(d, q, w);
    assert(written_at(d, t0 + 8, Obj::Dict(tr)));
    lemma_read_dict(d, t0 + 8, tr, ParseMode::Compatible, x);
    lemma_section_from_parts(
        d,
        p,
        t0,
        q,
        map_extend(Map::empty(), row_infos(rows, rows.len())),
        read_entries(tr),
        x,
    );
}

/// A saved document, cut where its xref table, its trailer and the word
/// `startxref` start.
proof fn lemma_document_split(items: Seq<(ObjectId, Option<Obj>)>, t: Seq<(Seq<u8>, Obj)>, size: nat)
    ensures
        document_bytes(items, t, size) == header_out() + body_bytes(items) + xref_table_bytes(
            xref_rows(items, size),
        ) + seq![116u8, 114u8, 97u8, 105u8, 108u8, 101u8, 114u8, 10u8] + obj_bytes(
            Obj::Dict(trailer_out(t, size)),
        ) + seq![10u8] + kw_startxref() + (seq![10u8] + decimal_digits(
            header_out().len() + body_bytes(items).len(),
        ) + seq![10u8] + eof_out()),
{
    assert(document_bytes(items, t, size) =~= header_out() + body_bytes(items) + xref_table_bytes(
        xref_rows(items, size),
    ) + seq![116u8, 114u8, 97u8, 105u8, 108u8, 101u8, 114u8, 10u8] + obj_bytes(
        Obj::Dict(trailer_out(t, size)),
    ) + seq![10u8] + kw_startxref() + (seq![10u8] + decimal_digits(
        header_out().len() + body_bytes(items).len(),
    ) + seq![10u8] + eof_out()));
}

/// `startxref` is a word that is not a number, `stream` or `R`.
proof fn lemma_startxref_word()
    ensures
        kw_startxref().len() > 0,
        word_bytes(kw_startxref()),
        !spec_is_number_token(kw_startxref()),
        kw_startxref() != kw_stream(),
        kw_startxref() != kw_r(),
{
    let w = kw_startxref();
    assert(w.len() != kw_stream().len());
    assert(w.len() != kw_r().len());
}

/// The xref table and trailer of a saved document, read from where its
/// table starts.
#[verifier::spinoff_prover]
#[verifier::rlimit(40)]
proof fn lemma_saved_section(
    items: Seq<(ObjectId, Option<Obj>)>,
    t: Seq<(Seq<u8>, Obj)>,
    size: nat,
    x: Option<Seq<ObjectInfo>>,
)
    requires
        0 < size <= u32::MAX,
        forall|i: int| 0 <= i < items.len() ==> #[trigger] items[i].0.obj_num < size,
        readable_entries(trailer_out(t, size)),
    ensures
        ({
            let d = document_bytes(items, t, size);
            let p = (header_out().len() + body_bytes(items).len()) as int;
            &&& spec_next_word(d, p).1 == Ok::<(Seq<u8>, bool), PdfError>((kw_xref(), false))
            &&& spec_parse_xref_section(d, p, ParseMode::Compatible, x).1 == Ok::<
                Option<(Map<u32, ObjectInfo>, Seq<(Seq<u8>, Obj)>)>,
                PdfError,
            >(Some((row_map(xref_rows(items, size), size), read_entries(trailer_out(t, size)))))
        }),
{
    let rows = xref_rows(items, size);
    lemma_xref_rows_len(items, size);
    lemma_rows_letters(items, size);
    let tr = trailer_out(t, size);
    let xo = header_out().len() + body_bytes(items).len();
    let front = header_out() + body_bytes(items);
    let w = kw_startxref();
    let rest = seq![10u8] + decimal_digits(xo) + seq![10u8] + eof_out();
    lemma_startxref_word();
    lemma_table_then_trailer(front, rows, tr, w, rest, x);
    lemma_row_map(rows, size);
    lemma_document_split(items, t, size);
}

/// A saved document reads back: the last `startxref` names its xref table,
/// which gives each object number below the size its row, and its trailer
/// is the trailer written, which names no previous section.
#[verifier::spinoff_prover]
#[verifier::rlimit(40)]
pub proof fn law_saved_xref_reads_back(
    items: Seq<(ObjectId, Option<Obj>)>,
    t: Seq<(Seq<u8>, Obj)>,
    size: nat,
    x: Option<Seq<ObjectInfo>>,
)
    requires
        0 < size <= u32::MAX,
        forall|i: int| 0 <= i < items.len() ==> #[trigger] items[i].0.obj_num < size,
        header_out().len() + body_bytes(items).len() <= u64::MAX,
        readable_entries(trailer_out(t, size)),
    ensures
        spec_parse_xref(document_bytes(items, t, size), ParseMode::Compatible, x) == Ok::<
            (Map<u32, ObjectInfo>, Seq<(Seq<u8>, Obj)>),
            PdfError,
        >((row_map(xref_rows(items, size), size), read_entries(trailer_out(t, size)))),
{
    let mx = row_map(xref_rows(items, size), size);
    let tr = read_entries(trailer_out(t, size));
    let xo = header_out().len() + body_bytes(items).len();
    let d = document_bytes(items, t, size);
    let p = xo as int;
    lemma_saved_section(items, t, size, x);
    lemma_trailer_out_no_prev(t, size);
    reveal(spec_section_at);
    assert(spec_section_at(d, p, ParseMode::Compatible, x, false) == Ok::<
        Option<(Map<u32, ObjectInfo>, Seq<(Seq<u8>, Obj)>)>,
        PdfError,
    >(Some((mx, tr))));
    assert(spec_load_xref(d, xo as u64, ParseMode::Compatible, x, false) == Ok::<
        (Map<u32, ObjectInfo>, Seq<(Seq<u8>, Obj)>),
        PdfError,
    >((mx, tr)));
    let front = header_out() + body_bytes(items) + xref_table_bytes(xref_rows(items, size))
        + trailer_bytes(t, size);
    assert(d =~= front + startxref_out() + decimal_digits((xo as u64) as nat) + seq![10u8] + eof_out());
    law_startxref_found(front, xo as u64);
}

/// An object reads back as an object stream exactly when it is one.
proof fn lemma_read_form_objstm(o: Obj)
    ensures
        is_objstm(read_form(o)) == is_objstm(o),
{
    match o {
        Obj::Stream(es, data) => {
            let t = crate::parser::xref_stream::key_type();
            assert(t != crate::writer::key_length()) by {
                assert(t[0] != crate::writer::key_length()[0]);
            }
            crate::read_back::lemma_dict_insert_other(
                read_entries(es),
                crate::writer::key_length(),
                Obj::Number(decimal_digits(data.len())),
                t,
            );
            crate::read_back::lemma_read_entries_get(es, t);
            match crate::objects::dict_get(es, t) {
                Some(v) => crate::read_back::lemma_read_form_name(v, crate::pdf_context::name_objstm()),
                None => {},
            }
        },
        _ => {},
    }
}

/// An object written at `off` is read there.
proof fn lemma_object_at(d: Seq<u8>, off: u64, id: ObjectId, o: Obj, mode: ParseMode, x: Option<Seq<ObjectInfo>>)
    requires
        readable(o),
        !is_objstm(o),
        id.gen_num <= u16::MAX,
        off + indirect_bytes(id, o).len() <= d.len(),
        d.subrange(off as int, off + indirect_bytes(id, o).len()) == indirect_bytes(id, o),
    ensures
        spec_parse_at(d, mode, x, off) == Ok::<Obj, PdfError>(read_form(o)),
{
    let obj = indirect_bytes(id, o);
    let pre = d.take(off as int);
    let rest = d.skip(off + obj.len());
    assert(d =~= pre + obj + rest);
    law_written_object_reads_back(pre, id, o, rest, mode, x);
    lemma_read_form_objstm(o);
    reveal(spec_parse_at);
}

/// In a saved document, an object that was written is read back at the
/// offset that its row gives, when it reads back at all.
#[verifier::spinoff_prover]
#[verifier::rlimit(40)]
pub proof fn law_saved_object_reads_back(
    items: Seq<(ObjectId, Option<Obj>)>,
    t: Seq<(Seq<u8>, Obj)>,
    size: nat,
    es: Seq<ObjectInfo>,
    k: int,
    o: Obj,
    mode: ParseMode,
    x: Option<Seq<ObjectInfo>>,
)
    requires
        0 <= k < items.len(),
        items[k].1 == Some(o),
        readable(o),
        !is_objstm(o),
        items[k].0.gen_num <= u16::MAX,
        forall|i: int| 0 <= i < items.len() ==> #[trigger] items[i].0.obj_num < size,
        forall|i: int, j: int|
            0 <= i < j < items.len() ==> #[trigger] items[i].0.obj_num != #[trigger] items[j].0.obj_num,
        header_out().len() + body_bytes(items).len() <= u64::MAX,
        xref_map(es) == row_map(xref_rows(items, size), size),
    ensures
        spec_file_object(document_bytes(items, t, size), mode, x, es, items[k].0) == Ok::<Obj, PdfError>(
            read_form(o),
        ),
{
    let id = items[k].0;
    let n = id.obj_num;
    let rows = xref_rows(items, size);
    lemma_xref_rows_len(items, size);
    law_saved_rows_locate_objects(items, t, size, k);
    let row = rows[n as int];
    let d = document_bytes(items, t, size);
    assert(row_map(rows, size).contains_key(n));
    assert(xref_map(es).contains_key(n));
    assert(xref_lookup(es, n) is Some);
    assert(xref_map(es)[n] == row_map(rows, size)[n]);
    assert(xref_lookup(es, n)->0 == row_info(rows, n as int));
    assert(file_has(es, id));
    lemma_object_at(d, row.0, id, o, mode, x);
}

/// The objects of a saved document, in the order saved, have distinct numbers
/// below the size of its table.
proof fn lemma_saved_items_shape(ctx: PDFContext, ids: Seq<ObjectId>)
    requires
        ctx.wf(),
        ids_sorted(ids),
        forall|i: ObjectId| #[trigger] ids.contains(i) <==> ctx.known(i),
    ensures
        ({
            let items = write_items(ctx, ids);
            let size = table_size(ids);
            &&& 0 < size <= u32::MAX
            &&& forall|i: int| 0 <= i < items.len() ==> #[trigger] items[i].0.obj_num < size
            &&& forall|i: int, j: int|
                0 <= i < j < items.len() ==> #[trigger] items[i].0.obj_num != #[trigger] items[j].0.obj_num
        }),
{
    let items = write_items(ctx, ids);
    let size = table_size(ids);
    if ids.len() > 0 {
        let last = ids[ids.len() - 1];
        assert(ids.contains(last));
        ctx.lemma_known_below_next_pub(last);
        assert forall|i: int| 0 <= i < items.len() implies #[trigger] items[i].0.obj_num < size by {
            if i < ids.len() - 1 {
                assert(id_lt(ids[i], last));
            }
        }
    }
    assert forall|i: int, j: int| 0 <= i < j < items.len() implies #[trigger] items[i].0.obj_num
        != #[trigger] items[j].0.obj_num by {
        assert(id_lt(ids[i], ids[j]));
        assert(ids.contains(ids[i]) && ids.contains(ids[j]));
        if ids[i].obj_num == ids[j].obj_num {
            ctx.lemma_numbers_unique(ids[i], ids[j]);
        }
    }
}

/// An object of the document is saved as it is: where it stands among the
/// objects saved.
proof fn lemma_saved_items(ctx: PDFContext, ids: Seq<ObjectId>, id: ObjectId, o: Obj) -> (k: int)
    requires
        ctx.wf(),
        ids_sorted(ids),
        forall|i: ObjectId| #[trigger] ids.contains(i) <==> ctx.known(i),
        ctx.object_value(id) == Ok::<Obj, PdfError>(o),
    ensures
        0 <= k < write_items(ctx, ids).len(),
        write_items(ctx, ids)[k].0 == id,
        write_items(ctx, ids)[k].1 == Some(o),
{
    assert(ctx.known(id));
    assert(ids.contains(id));
    let k = choose|k: int| 0 <= k < ids.len() && ids[k] == id;
    match ctx.store.get(id) {
        Some(StoreValue::Upsert(v)) => {},
        Some(StoreValue::Deleted) => {},
        None => {},
    }
    k
}

/// A row that no object written fills stays free.
proof fn lemma_rows_free(items: Seq<(ObjectId, Option<Obj>)>, size: nat, n: int)
    requires
        0 <= n < size,
        forall|i: int| 0 <= i < items.len() ==> #[trigger] items[i].0.obj_num < size,
        forall|i: int| 0 <= i < items.len() && #[trigger] items[i].0.obj_num == n ==> items[i].1 is None,
    ensures
        xref_rows(items, size)[n].2 == 102u8,
    decreases items.len(),
{
    if items.len() > 0 {
        let its = items.drop_last();
        assert forall|i: int| 0 <= i < its.len() implies #[trigger] its[i].0.obj_num < size by {
            assert(its[i] == items[i]);
        }
        assert forall|i: int| 0 <= i < its.len() && #[trigger] its[i].0.obj_num == n implies its[i].1 is None by {
            assert(its[i] == items[i]);
        }
        lemma_rows_free(its, size, n);
        lemma_xref_rows_len(its, size);
        assert(items[items.len() - 1].0.obj_num < size);
    }
}

/// A deleted object is gone from a saved document: opened again, the
/// document does not have it.
#[verifier::spinoff_prover]
#[verifier::rlimit(40)]
pub proof fn law_saved_deleted_stays_gone(ctx: PDFContext, ids: Seq<ObjectId>, id: ObjectId)
    requires
        ctx.wf(),
        ids_sorted(ids),
        forall|i: ObjectId| #[trigger] ids.contains(i) <==> ctx.known(i),
        ctx.store.get(id) == Some(StoreValue::Deleted),
    ensures
        ({
            let items = write_items(ctx, ids);
            let size = table_size(ids);
            let d = document_bytes(items, ctx.cross_ref_table.trailer@, size);
            let m = row_map(xref_rows(items, size), size);
            forall|es: Seq<ObjectInfo>|
                xref_map(es) == m ==> #[trigger] spec_file_object(d, ParseMode::Compatible, Some(es), es, id)
                    == Err::<Obj, PdfError>(PdfError::ObjectError)
        }),
{
    let items = write_items(ctx, ids);
    let size = table_size(ids);
    lemma_saved_items_shape(ctx, ids);
    assert(ctx.known(id));
    assert(ids.contains(id));
    let k = choose|k: int| 0 <= k < ids.len() && ids[k] == id;
    assert(items[k].1 is None);
    let n = id.obj_num as int;
    assert forall|i: int| 0 <= i < items.len() && #[trigger] items[i].0.obj_num == n implies items[i].1 is None by {
        if i != k {
            if i < k {
                assert(items[i].0.obj_num != items[k].0.obj_num);
            } else {
                assert(items[k].0.obj_num != items[i].0.obj_num);
            }
        }
    }
    lemma_rows_free(items, size, n);
    lemma_xref_rows_len(items, size);
    let rows = xref_rows(items, size);
    assert forall|es: Seq<ObjectInfo>| xref_map(es) == row_map(rows, size) implies #[trigger] spec_file_object(
        document_bytes(items, ctx.cross_ref_table.trailer@, size),
        ParseMode::Compatible,
        Some(es),
        es,
        id,
    ) == Err::<Obj, PdfError>(PdfError::ObjectError) by {
        assert(row_map(rows, size).contains_key(id.obj_num));
        assert(xref_map(es).contains_key(id.obj_num));
        assert(xref_map(es)[id.obj_num] == row_map(rows, size)[id.obj_num]);
        assert(xref_lookup(es, id.obj_num)->0 == row_info(rows, n));
        assert(!file_has(es, id));
    }
}

/// A document saved and opened again gives back its objects. Reading the
/// saved bytes finds the xref table that was written, with a row for each
/// object number below the size of the table, and the trailer written. Each
/// object of the document that the writer writes so that it reads back (no
/// name or key that needs a `#` escape, no dictionary with a repeated key,
/// no object stream) is read back from the saved bytes, through the entries
/// that the table gives, as the same object: its strings read as literal
/// strings, and its streams with `Length` set to the length of their data.
/// This holds when the trailer written reads back in the same way.
#[verifier::spinoff_prover]
#[verifier::rlimit(40)]
pub proof fn law_saved_document_reads_back(ctx: PDFContext, ids: Seq<ObjectId>, id: ObjectId, o: Obj)
    requires
        ctx.wf(),
        ids_sorted(ids),
        forall|i: ObjectId| #[trigger] ids.contains(i) <==> ctx.known(i),
        ctx.object_value(id) == Ok::<Obj, PdfError>(o),
        readable(o),
        !is_objstm(o),
        id.gen_num <= u16::MAX,
        header_out().len() + body_bytes(write_items(ctx, ids)).len() <= u64::MAX,
        readable_entries(trailer_out(ctx.cross_ref_table.trailer@, table_size(ids))),
    ensures
        ({
            let items = write_items(ctx, ids);
            let size = table_size(ids);
            let d = document_bytes(items, ctx.cross_ref_table.trailer@, size);
            let m = row_map(xref_rows(items, size), size);
            &&& spec_parse_xref(d, ParseMode::Compatible, None) == Ok::<
                (Map<u32, ObjectInfo>, Seq<(Seq<u8>, Obj)>),
                PdfError,
            >((m, read_entries(trailer_out(ctx.cross_ref_table.trailer@, size))))
            &&& forall|es: Seq<ObjectInfo>|
                xref_map(es) == m ==> #[trigger] spec_file_object(
                    d,
                    ParseMode::Compatible,
                    Some(es),
                    es,
                    id,
                ) == Ok::<Obj, PdfError>(read_form(o))
        }),
{
    let items = write_items(ctx, ids);
    let size = table_size(ids);
    let t = ctx.cross_ref_table.trailer@;
    lemma_saved_items_shape(ctx, ids);
    let k = lemma_saved_items(ctx, ids, id, o);
    law_saved_xref_reads_back(items, t, size, None);
    assert forall|es: Seq<ObjectInfo>| xref_map(es) == row_map(xref_rows(items, size), size) implies #[trigger] spec_file_object(
        document_bytes(items, t, size),
        ParseMode::Compatible,
        Some(es),
        es,
        id,
    ) == Ok::<Obj, PdfError>(read_form(o)) by {
        law_saved_object_reads_back(items, t, size, es, k, o, ParseMode::Compatible, Some(es));
    }
}

} // verus!
