use vstd::prelude::*;
use crate::cross_ref_table::{CrossRefTable, ObjectInfo, ObjectState, map_extend, xref_map};
use crate::error::{PdfError, PdfResult};
use crate::objects::{Obj, PdfDict, PdfObject, dict_get, spec_number_as};
use crate::parser::parse_utility::{parse_unsigned, spec_parse_unsigned};
use crate::parser::syntax::SyntaxParser;
use crate::parser::syntax_spec::{
    ParseMode, after_line, lemma_line_end, lemma_next_word, line_bytes, rem, spec_get_indirect,
    spec_get_object, spec_next_word, spec_word_unsigned, tag_at,
};
use crate::parser::xref_stream::spec_parse_xref_stream;
use vstd::set_lib::{lemma_int_range, lemma_len_subset, set_int_range};
pub use crate::parser::xref_stream::parse_xref_stream;

verus! {

// ---------------------------------------------------------------- startxref

/// `startxref`
pub open spec fn kw_startxref() -> Seq<u8> {
    seq![115u8, 116u8, 97u8, 114u8, 116u8, 120u8, 114u8, 101u8, 102u8]
}

/// `%%EOF`
pub open spec fn kw_eof_marker() -> Seq<u8> {
    seq![37u8, 37u8, 69u8, 79u8, 70u8]
}

/// The last occurrence of `tag` in `w` that starts at or before `i`.
pub open spec fn rfind_tag_from(w: Seq<u8>, tag: Seq<u8>, i: int) -> Option<int>
    decreases i + 1,
{
    if i < 0 {
        None
    } else if tag_at(w, i, tag) {
        Some(i)
    } else {
        rfind_tag_from(w, tag, i - 1)
    }
}

/// The last occurrence of `tag` in `w`.
pub open spec fn rfind_tag(w: Seq<u8>, tag: Seq<u8>) -> Option<int> {
    rfind_tag_from(w, tag, w.len() - tag.len())
}

pub proof fn lemma_rfind_tag_from(w: Seq<u8>, tag: Seq<u8>, i: int)
    ensures
        rfind_tag_from(w, tag, i) matches Some(k) ==> 0 <= k <= i && tag_at(w, k, tag),
        rfind_tag_from(w, tag, i) is None ==> forall|k: int| 0 <= k <= i ==> !tag_at(w, k, tag),
    decreases i + 1,
{
    if i >= 0 && !tag_at(w, i, tag) {
        lemma_rfind_tag_from(w, tag, i - 1);
    }
}

/// The last index of `tag` in `w`.
fn rfind(w: &[u8], tag: &[u8]) -> (r: Option<usize>)
    ensures
        match rfind_tag(w@, tag@) {
            Some(k) => r == Some(k as usize),
            None => r is None,
        },
{
    if tag.len() > w.len() {
        proof {
            lemma_rfind_tag_from(w@, tag@, w@.len() - tag@.len());
        }
        return None;
    }
    let wl = w.len();
    let tl = tag.len();
    let mut k: usize = wl - tl;
    loop
        invariant
            0 <= k <= wl - tl,
            tl <= wl,
            wl == w@.len(),
            tl == tag@.len(),
            rfind_tag(w@, tag@) == rfind_tag_from(w@, tag@, k as int),
        decreases k,
    {
        let mut j: usize = 0;
        let mut ok = true;
        while j < tl
            invariant
                k + tl <= wl,
                wl == w@.len(),
                tl == tag@.len(),
                0 <= j <= tl,
                ok ==> forall|m: int| 0 <= m < j ==> w@[k + m] == tag@[m],
                !ok ==> !tag_at(w@, k as int, tag@),
            decreases tl - j,
        {
            if w[k + j] != tag[j] {
                proof {
                    assert(w@.subrange(k as int, k + tag@.len())[j as int] != tag@[j as int]);
                }
                ok = false;
            }
            j = j + 1;
        }
        if ok {
            proof {
                assert(w@.subrange(k as int, k + tag@.len()) =~= tag@);
            }
            return Some(k);
        }
        if k == 0 {
            proof {
                assert(rfind_tag_from(w@, tag@, -1) is None);
            }
            return None;
        }
        k = k - 1;
    }
}

/// Strict mode: `%%EOF` must be followed by white space only.
pub open spec fn spec_final_eof_ok(window: Seq<u8>) -> bool {
    match rfind_tag(window, kw_eof_marker()) {
        None => false,
        Some(e) => forall|i: int|
            e + 5 <= i < window.len() ==> is_eol_space(#[trigger] window[i]),
    }
}

/// The bytes allowed after `%%EOF`: NUL, TAB, LF, FF, CR, SPACE.
pub open spec fn is_eol_space(b: u8) -> bool {
    b == 0u8 || b == 9u8 || b == 10u8 || b == 12u8 || b == 13u8 || b == 32u8
}

/// The last `%%EOF` marker in the window.
fn find_last_eof_marker(window: &[u8]) -> (r: Option<usize>)
    ensures
        match rfind_tag(window@, kw_eof_marker()) {
            Some(k) => r == Some(k as usize),
            None => r is None,
        },
{
    let marker: [u8; 5] = [37u8, 37u8, 69u8, 79u8, 70u8];
    assert(marker@ =~= kw_eof_marker());
    rfind(window, &marker)
}

/// Strict mode wants `%%EOF` as the last thing in the file but white space.
fn validate_final_eof_marker(window: &[u8]) -> (r: PdfResult<()>)
    ensures
        spec_final_eof_ok(window@) ==> r == Ok::<(), PdfError>(()),
        !spec_final_eof_ok(window@) ==> r == Err::<(), PdfError>(PdfError::ParserError),
{
    let wl = window.len();
    proof {
        lemma_rfind_tag_from(window@, kw_eof_marker(), window@.len() - 5);
        assert(kw_eof_marker().len() == 5);
    }
    let eof_pos = match find_last_eof_marker(window) {
        Some(e) => e,
        None => {
            return Err(PdfError::ParserError);
        },
    };
    let mut i: usize = eof_pos + 5;
    while i < window.len()
        invariant
            eof_pos + 5 <= i <= window@.len(),
            rfind_tag(window@, kw_eof_marker()) == Some(eof_pos as int),
            forall|j: int| eof_pos + 5 <= j < i ==> is_eol_space(#[trigger] window@[j]),
        decreases window.len() - i,
    {
        let b = window[i];
        if !(b == 0u8 || b == 9u8 || b == 10u8 || b == 12u8 || b == 13u8 || b == 32u8) {
            return Err(PdfError::ParserError);
        }
        i = i + 1;
    }
    Ok(())
}

/// The window at the end of the file that is searched for `startxref`: its last MiB.
pub open spec fn xref_window_start(len: int) -> int {
    if len < 1048576 {
        0
    } else {
        len - 1048576
    }
}

/// Finding the `startxref` offset: where reading stops and the offset.
pub open spec fn spec_find_start_xref(d: Seq<u8>, mode: ParseMode) -> (int, PdfResult<u64>) {
    let start = xref_window_start(d.len() as int);
    let window = d.subrange(start, d.len() as int);
    if mode == ParseMode::Strict && !spec_final_eof_ok(window) {
        (d.len() as int, Err(PdfError::ParserError))
    } else {
        match rfind_tag(window, kw_startxref()) {
            None => (d.len() as int, Err(PdfError::ParserError)),
            Some(rel) => if mode == ParseMode::Strict && rel >= rfind_tag(
                window,
                kw_eof_marker(),
            )->0 {
                (d.len() as int, Err(PdfError::ParserError))
            } else {
                let (p, w) = spec_next_word(d, start + rel + 9);
                match w {
                    Err(e) => (p, Err(e)),
                    Ok((raw, isnum)) => if !isnum {
                        (p, Err(PdfError::ParserError))
                    } else {
                        match spec_word_unsigned(raw, isnum, u64::MAX as nat) {
                            Ok(v) => (p, Ok(v as u64)),
                            Err(e) => (p, Err(e)),
                        }
                    },
                }
            },
        }
    }
}

/// The byte offset that the last `startxref` in the file's last MiB names.
pub fn find_start_xref(syntax: &mut SyntaxParser) -> (r: PdfResult<u64>)
    ensures
        final(syntax).same_input(old(syntax)),
        final(syntax).pos == spec_find_start_xref(old(syntax).data@, old(syntax).mode).0,
        match spec_find_start_xref(old(syntax).data@, old(syntax).mode).1 {
            Ok(v) => r == Ok::<u64, PdfError>(v),
            Err(e) => r == Err::<u64, PdfError>(e),
        },
{
    let size = syntax.file_size();
    let dlen = syntax.data.len();
    let limit: u64 = if size < 1048576 {
        size
    } else {
        1048576
    };
    let pos = size - limit;
    let mut window: Vec<u8> = Vec::new();
    let mut i: usize = pos as usize;
    while i < dlen
        invariant
            pos <= i <= dlen,
            dlen == syntax.data@.len(),
            window@ =~= syntax.data@.subrange(pos as int, i as int),
        decreases dlen - i,
    {
        window.push(syntax.data[i]);
        i = i + 1;
    }
    syntax.pos = size;
    let tag: [u8; 9] = [115u8, 116u8, 97u8, 114u8, 116u8, 120u8, 114u8, 101u8, 102u8];
    assert(tag@ =~= kw_startxref());
    if syntax.mode == ParseMode::Strict {
        match validate_final_eof_marker(window.as_slice()) {
            Ok(_) => {},
            Err(e) => {
                return Err(e);
            },
        }
    }
    let rel = match rfind(window.as_slice(), &tag) {
        Some(r) => r,
        None => {
            return Err(PdfError::ParserError);
        },
    };
    proof {
        lemma_rfind_tag_from(window@, kw_startxref(), window@.len() - 9);
    }
    proof {
        lemma_rfind_tag_from(window@, kw_eof_marker(), window@.len() - 5);
    }
    if syntax.mode == ParseMode::Strict {
        let eof_rel = match find_last_eof_marker(window.as_slice()) {
            Some(e) => e,
            None => {
                return Err(PdfError::ParserError);
            },
        };
        if rel >= eof_rel {
            return Err(PdfError::ParserError);
        }
    }
    syntax.pos = pos + rel as u64 + 9;
    let offsetobj = match syntax.get_next_word() {
        Ok(w) => w,
        Err(e) => {
            return Err(e);
        },
    };
    if !offsetobj.is_number() {
        return Err(PdfError::ParserError);
    }
    offsetobj.as_u64_checked()
}

// ---------------------------------------------------------------- xref tables

/// A strict cross-reference entry line: exactly `oooooooooo ggggg s` (18 bytes
/// before the end of line), with `s` being `n` or `f`.
pub open spec fn spec_strict_entry(line: Seq<u8>) -> PdfResult<(u64, u32, ObjectState)> {
    if line.len() != 18 {
        Err(PdfError::ParserError)
    } else if line[10] != 32u8 || line[16] != 32u8 {
        Err(PdfError::ParserError)
    } else {
        match spec_parse_unsigned(line.subrange(0, 10), u64::MAX as nat) {
            None => Err(PdfError::ParserError),
            Some(o) => match spec_parse_unsigned(line.subrange(11, 16), u32::MAX as nat) {
                None => Err(PdfError::ParserError),
                Some(g) => if line[17] == 110u8 {
                    Ok((o as u64, g as u32, ObjectState::Normal))
                } else if line[17] == 102u8 {
                    Ok((o as u64, g as u32, ObjectState::Free))
                } else {
                    Err(PdfError::ParserError)
                },
            },
        }
    }
}

/// A cross-reference entry read as three words: offset, generation, and `n` or `f`.
pub open spec fn spec_compat_entry(d: Seq<u8>, p: int) -> (int, PdfResult<(u64, u32, ObjectState)>) {
    let (p1, w1) = spec_next_word(d, p);
    match w1 {
        Err(e) => (p1, Err(e)),
        Ok((r1, n1)) => match spec_word_unsigned(r1, n1, u64::MAX as nat) {
            Err(e) => (p1, Err(e)),
            Ok(o) => {
                let (p2, w2) = spec_next_word(d, p1);
                match w2 {
                    Err(e) => (p2, Err(e)),
                    Ok((r2, n2)) => match spec_word_unsigned(r2, n2, u32::MAX as nat) {
                        Err(e) => (p2, Err(e)),
                        Ok(g) => {
                            let (p3, w3) = spec_next_word(d, p2);
                            match w3 {
                                Err(e) => (p3, Err(e)),
                                Ok((r3, _)) => if r3 == seq![110u8] {
                                    (p3, Ok((o as u64, g as u32, ObjectState::Normal)))
                                } else if r3 == seq![102u8] {
                                    (p3, Ok((o as u64, g as u32, ObjectState::Free)))
                                } else {
                                    (p3, Err(PdfError::ParserError))
                                },
                            }
                        },
                    },
                }
            },
        },
    }
}

/// One cross-reference entry at `p`, read as the mode wants.
pub open spec fn spec_entry(d: Seq<u8>, p: int, mode: ParseMode) -> (
    int,
    PdfResult<(u64, u32, ObjectState)>,
) {
    if mode == ParseMode::Strict {
        (after_line(d, p), spec_strict_entry(line_bytes(d, p)))
    } else {
        spec_compat_entry(d, p)
    }
}

/// The entries `i..count` of a subsection for objects `start..start + count`,
/// after the entries `acc`.
pub open spec fn spec_subsection(
    d: Seq<u8>,
    p: int,
    mode: ParseMode,
    start: u32,
    count: u32,
    i: nat,
    acc: Seq<ObjectInfo>,
) -> (int, PdfResult<Seq<ObjectInfo>>)
    decreases count - i,
{
    if i >= count {
        (p, Ok(acc))
    } else {
        let (p1, e) = spec_entry(d, p, mode);
        match e {
            Err(err) => (p1, Err(err)),
            Ok((o, g, st)) => if start + i > u32::MAX {
                (p1, Err(PdfError::ParserError))
            } else {
                spec_subsection(
                    d,
                    p1,
                    mode,
                    start,
                    count,
                    i + 1,
                    acc.push(ObjectInfo { objnum: (start + i) as u32, offset: o, gennum: g, state: st }),
                )
            },
        }
    }
}

pub proof fn lemma_entry_pos(d: Seq<u8>, p: int, mode: ParseMode)
    requires
        0 <= p,
    ensures
        spec_entry(d, p, mode).0 >= p,
{
    if mode == ParseMode::Strict {
        if p < d.len() {
            lemma_line_end(d, p);
        }
    } else {
        lemma_next_word(d, p);
        let p1 = spec_next_word(d, p).0;
        lemma_next_word(d, p1);
        let p2 = spec_next_word(d, p1).0;
        lemma_next_word(d, p2);
    }
}

pub proof fn lemma_subsection_pos(
    d: Seq<u8>,
    p: int,
    mode: ParseMode,
    start: u32,
    count: u32,
    i: nat,
    acc: Seq<ObjectInfo>,
)
    requires
        0 <= p,
    ensures
        spec_subsection(d, p, mode, start, count, i, acc).0 >= p,
    decreases count - i,
{
    if i < count {
        lemma_entry_pos(d, p, mode);
        let (p1, e) = spec_entry(d, p, mode);
        if e is Ok && start + i <= u32::MAX {
            let (o, g, st) = e->Ok_0;
            lemma_subsection_pos(
                d,
                p1,
                mode,
                start,
                count,
                i + 1,
                acc.push(ObjectInfo { objnum: (start + i) as u32, offset: o, gennum: g, state: st }),
            );
        }
    }
}

fn parse_xref_entry_strict(syntax: &mut SyntaxParser) -> (r: PdfResult<(u64, u32, ObjectState)>)
    ensures
        final(syntax).same_input(old(syntax)),
        final(syntax).pos == after_line(old(syntax).data@, old(syntax).pos as int),
        r == spec_strict_entry(line_bytes(old(syntax).data@, old(syntax).pos as int)),
{
    let line = match syntax.read_line() {
        Ok(l) => l,
        Err(e) => {
            return Err(e);
        },
    };
    if line.len() != 18 {
        return Err(PdfError::ParserError);
    }
    if line[10] != 32u8 || line[16] != 32u8 {
        return Err(PdfError::ParserError);
    }
    let l = line.as_slice();
    let offset_bytes = slice_range(l, 0, 10);
    let gen_bytes = slice_range(l, 11, 16);
    let offset = match parse_unsigned(offset_bytes.as_slice(), u64::MAX) {
        Some(v) => v,
        None => {
            return Err(PdfError::ParserError);
        },
    };
    let gennum = match parse_unsigned(gen_bytes.as_slice(), u32::MAX as u64) {
        Some(v) => v as u32,
        None => {
            return Err(PdfError::ParserError);
        },
    };
    if line[17] == 110u8 {
        Ok((offset, gennum, ObjectState::Normal))
    } else if line[17] == 102u8 {
        Ok((offset, gennum, ObjectState::Free))
    } else {
        Err(PdfError::ParserError)
    }
}

/// A copy of `s[a..b]`.
fn slice_range(s: &[u8], a: usize, b: usize) -> (r: Vec<u8>)
    requires
        a <= b <= s@.len(),
    ensures
        r@ == s@.subrange(a as int, b as int),
{
    let mut r: Vec<u8> = Vec::new();
    let mut i = a;
    while i < b
        invariant
            a <= i <= b,
            b <= s@.len(),
            r@ =~= s@.subrange(a as int, i as int),
        decreases b - i,
    {
        r.push(s[i]);
        i = i + 1;
    }
    r
}

fn parse_xref_entry(syntax: &mut SyntaxParser) -> (r: PdfResult<(u64, u32, ObjectState)>)
    ensures
        final(syntax).same_input(old(syntax)),
        final(syntax).pos == spec_entry(old(syntax).data@, old(syntax).pos as int, old(syntax).mode).0,
        r == spec_entry(old(syntax).data@, old(syntax).pos as int, old(syntax).mode).1,
{
    if syntax.mode == ParseMode::Strict {
        return parse_xref_entry_strict(syntax);
    }
    let w1 = match syntax.get_next_word() {
        Ok(w) => w,
        Err(e) => {
            return Err(e);
        },
    };
    let offset = match w1.as_u64_checked() {
        Ok(v) => v,
        Err(e) => {
            return Err(e);
        },
    };
    let w2 = match syntax.get_next_word() {
        Ok(w) => w,
        Err(e) => {
            return Err(e);
        },
    };
    let gennum = match w2.as_u32_checked() {
        Ok(v) => v,
        Err(e) => {
            return Err(e);
        },
    };
    let t = match syntax.get_next_word() {
        Ok(w) => w,
        Err(e) => {
            return Err(e);
        },
    };
    let n: [u8; 1] = [110u8];
    let f: [u8; 1] = [102u8];
    assert(n@ =~= seq![110u8]);
    assert(f@ =~= seq![102u8]);
    if t.is_equal(&n) {
        Ok((offset, gennum, ObjectState::Normal))
    } else if t.is_equal(&f) {
        Ok((offset, gennum, ObjectState::Free))
    } else {
        Err(PdfError::ParserError)
    }
}

/// The entries of a subsection for objects `start..start + count`.
fn parse_xref_sub_section(syntax: &mut SyntaxParser, start_objnum: u32, count: u32) -> (r: PdfResult<
    Vec<ObjectInfo>,
>)
    ensures
        final(syntax).same_input(old(syntax)),
        final(syntax).pos == spec_subsection(
            old(syntax).data@,
            old(syntax).pos as int,
            old(syntax).mode,
            start_objnum,
            count,
            0,
            Seq::empty(),
        ).0,
        match spec_subsection(
            old(syntax).data@,
            old(syntax).pos as int,
            old(syntax).mode,
            start_objnum,
            count,
            0,
            Seq::empty(),
        ).1 {
            Ok(es) => r matches Ok(v) && v@ == es,
            Err(e) => r == Err::<Vec<ObjectInfo>, PdfError>(e),
        },
{
    let ghost d = syntax.data@;
    let ghost p0 = syntax.pos as int;
    let mut objects: Vec<ObjectInfo> = Vec::new();
    let mut i: u32 = 0;
    while i < count
        invariant
            syntax.same_input(old(syntax)),
            d == syntax.data@,
            p0 == old(syntax).pos as int,
            0 <= i <= count,
            spec_subsection(d, p0, syntax.mode, start_objnum, count, 0, Seq::empty())
                == spec_subsection(d, syntax.pos as int, syntax.mode, start_objnum, count, i as nat, objects@),
        decreases count - i,
    {
        let (offset, gennum, state) = match parse_xref_entry(syntax) {
            Ok(e) => e,
            Err(e) => {
                return Err(e);
            },
        };
        if start_objnum > u32::MAX - i {
            return Err(PdfError::ParserError);
        }
        let objnum = start_objnum + i;
        objects.push(ObjectInfo::new(objnum, offset, gennum, state));
        i = i + 1;
    }
    Ok(objects)
}


/// Whether one of the entries names an object that the map has.
pub open spec fn any_in(m: Map<u32, ObjectInfo>, r: Seq<ObjectInfo>) -> bool {
    exists|i: int| 0 <= i < r.len() && m.dom().contains(#[trigger] r[i].objnum)
}

/// The subsections of an xref section from position `p`, where the last word
/// read is `raw`. Each round reads a start and a count word, then that many
/// entries; the round after it starts again from the count word. Reading stops
/// at the first word that is not a number, which is returned with the entries.
pub open spec fn spec_section_loop(
    d: Seq<u8>,
    p: int,
    mode: ParseMode,
    raw: Seq<u8>,
    isnum: bool,
    m: Map<u32, ObjectInfo>,
) -> (int, PdfResult<(Seq<u8>, Map<u32, ObjectInfo>)>)
    decreases rem(d, p),
{
    if !isnum || p < 0 {
        (p, Ok((raw, m)))
    } else {
        match spec_word_unsigned(raw, isnum, u32::MAX as nat) {
            Err(e) => (p, Err(e)),
            Ok(start) => {
                proof {
                    lemma_next_word(d, p);
                }
                let (p1, w) = spec_next_word(d, p);
                match w {
                    Err(e) => (p1, Err(e)),
                    Ok((raw2, isnum2)) => if !isnum2 {
                        (p1, Ok((raw2, m)))
                    } else {
                        match spec_word_unsigned(raw2, isnum2, u32::MAX as nat) {
                            Err(e) => (p1, Err(e)),
                            Ok(count) => if mode == ParseMode::Strict && count == 0 {
                                (p1, Err(PdfError::ParserError))
                            } else {
                                proof {
                                    lemma_subsection_pos(
                                        d,
                                        p1,
                                        mode,
                                        start as u32,
                                        count as u32,
                                        0,
                                        Seq::empty(),
                                    );
                                }
                                let (p2, sr) = spec_subsection(
                                    d,
                                    p1,
                                    mode,
                                    start as u32,
                                    count as u32,
                                    0,
                                    Seq::empty(),
                                );
                                match sr {
                                    Err(e) => (p2, Err(e)),
                                    Ok(objs) => if mode == ParseMode::Strict && any_in(m, objs) {
                                        (p2, Err(PdfError::ParserError))
                                    } else {
                                        spec_section_loop(
                                            d,
                                            p2,
                                            mode,
                                            raw2,
                                            isnum2,
                                            map_extend(m, objs),
                                        )
                                    },
                                }
                            },
                        }
                    },
                }
            },
        }
    }
}

/// `xref`
pub open spec fn kw_xref() -> Seq<u8> {
    seq![120u8, 114u8, 101u8, 102u8]
}

/// `trailer`
pub open spec fn kw_trailer() -> Seq<u8> {
    seq![116u8, 114u8, 97u8, 105u8, 108u8, 101u8, 114u8]
}

/// `Size`
pub open spec fn key_size() -> Seq<u8> {
    seq![83u8, 105u8, 122u8, 101u8]
}

/// An xref section `xref ... trailer << ... >>` at `pos`: where reading stops,
/// and the entries with the trailer, or `None` when the keywords are not there
/// or the trailer is not a dictionary.
pub open spec fn spec_parse_xref_section(
    d: Seq<u8>,
    pos: int,
    mode: ParseMode,
    x: Option<Seq<ObjectInfo>>,
) -> (int, PdfResult<Option<(Map<u32, ObjectInfo>, Seq<(Seq<u8>, Obj)>)>>) {
    let (p1, w) = spec_next_word(d, pos);
    match w {
        Err(e) => (p1, Err(e)),
        Ok((raw, _)) => if raw != kw_xref() {
            (p1, Ok(None))
        } else {
            let (p2, w2) = spec_next_word(d, p1);
            match w2 {
                Err(e) => (p2, Err(e)),
                Ok((raw2, isnum2)) => {
                    let (p3, lr) = spec_section_loop(d, p2, mode, raw2, isnum2, Map::empty());
                    match lr {
                        Err(e) => (p3, Err(e)),
                        Ok((fw, m)) => if fw != kw_trailer() {
                            (p3, Ok(None))
                        } else {
                            let (p4, ro) = spec_get_object(d, p3, mode, x);
                            match ro {
                                Err(e) => (p4, Err(e)),
                                Ok(Obj::Dict(t)) => if mode == ParseMode::Strict && dict_get(
                                    t,
                                    key_size(),
                                ) is None {
                                    (p4, Err(PdfError::ParserError))
                                } else {
                                    (p4, Ok(Some((m, t))))
                                },
                                Ok(_) => (p4, Ok(None)),
                            }
                        },
                    }
                },
            }
        },
    }
}

/// Adds the entries one after the other to the table.
fn extend_table(table: &mut CrossRefTable, objs: &Vec<ObjectInfo>)
    ensures
        final(table).trailer == old(table).trailer,
        xref_map(final(table).entries@) == map_extend(xref_map(old(table).entries@), objs@),
{
    let mut i: usize = 0;
    assert(objs@.skip(0) =~= objs@);
    while i < objs.len()
        invariant
            0 <= i <= objs@.len(),
            table.trailer == old(table).trailer,
            map_extend(xref_map(old(table).entries@), objs@) == map_extend(
                xref_map(table.entries@),
                objs@.skip(i as int),
            ),
        decreases objs.len() - i,
    {
        proof {
            assert(objs@.skip(i as int).drop_first() =~= objs@.skip(i + 1));
        }
        table.insert(objs[i]);
        i = i + 1;
    }
}

/// Whether one of the entries names an object that the table has.
fn any_in_table(table: &CrossRefTable, objs: &Vec<ObjectInfo>) -> (r: bool)
    ensures
        r == any_in(xref_map(table.entries@), objs@),
{
    let mut i: usize = 0;
    while i < objs.len()
        invariant
            0 <= i <= objs@.len(),
            forall|j: int| 0 <= j < i ==> !xref_map(table.entries@).dom().contains(#[trigger] objs@[j].objnum),
        decreases objs.len() - i,
    {
        if table.lookup(&objs[i].objnum).is_some() {
            proof {
                assert(xref_map(table.entries@).dom().contains(objs@[i as int].objnum));
            }
            return true;
        }
        i = i + 1;
    }
    false
}

/// Reads the xref section at `pos`.
fn parse_xref_section(syntax: &mut SyntaxParser, pos: u64) -> (r: PdfResult<Option<CrossRefTable>>)
    ensures
        final(syntax).same_input(old(syntax)),
        final(syntax).pos == spec_parse_xref_section(
            old(syntax).data@,
            pos as int,
            old(syntax).mode,
            old(syntax).xref_spec(),
        ).0,
        match spec_parse_xref_section(
            old(syntax).data@,
            pos as int,
            old(syntax).mode,
            old(syntax).xref_spec(),
        ).1 {
            Ok(Some((m, t))) => r matches Ok(Some(table)) && xref_map(table.entries@) == m
                && table.trailer@ == t,
            Ok(None) => r matches Ok(None),
            Err(e) => r == Err::<Option<CrossRefTable>, PdfError>(e),
        },
{
    let ghost d = syntax.data@;
    syntax.pos = pos;
    let xref_kw: [u8; 4] = [120u8, 114u8, 101u8, 102u8];
    let trailer_kw: [u8; 7] = [116u8, 114u8, 97u8, 105u8, 108u8, 101u8, 114u8];
    let size_key: [u8; 4] = [83u8, 105u8, 122u8, 101u8];
    assert(xref_kw@ =~= kw_xref());
    assert(trailer_kw@ =~= kw_trailer());
    assert(size_key@ =~= key_size());
    let w = match syntax.get_next_word() {
        Ok(w) => w,
        Err(e) => {
            return Err(e);
        },
    };
    if !w.is_equal(&xref_kw) {
        return Ok(None);
    }
    let ghost p1 = syntax.pos as int;
    let mut table = CrossRefTable::new_empty();
    proof {
        assert(xref_map(table.entries@) =~= Map::<u32, ObjectInfo>::empty());
    }
    let mut next_word = match syntax.get_next_word() {
        Ok(w) => w,
        Err(e) => {
            return Err(e);
        },
    };
    let ghost p2 = syntax.pos as int;
    let ghost raw2 = next_word.raw@;
    let ghost isnum2 = next_word.is_number;
    while next_word.is_number()
        invariant
            syntax.same_input(old(syntax)),
            d == syntax.data@,
            d == old(syntax).data@,
            spec_next_word(d, pos as int).0 == p1,
            spec_next_word(d, pos as int).1 matches Ok((r, _)) && r == kw_xref(),
            spec_next_word(d, p1) == (p2, Ok::<(Seq<u8>, bool), PdfError>((raw2, isnum2))),
            table.trailer@ == Seq::<(Seq<u8>, Obj)>::empty(),
            spec_section_loop(d, p2, syntax.mode, raw2, isnum2, Map::empty()) == spec_section_loop(
                d,
                syntax.pos as int,
                syntax.mode,
                next_word.raw@,
                next_word.is_number,
                xref_map(table.entries@),
            ),
        decreases rem(d, syntax.pos as int),
    {
        let start = match next_word.as_u32_checked() {
            Ok(v) => v,
            Err(e) => {
                return Err(e);
            },
        };
        proof {
            lemma_next_word(d, syntax.pos as int);
        }
        let next = match syntax.get_next_word() {
            Ok(w) => w,
            Err(e) => {
                return Err(e);
            },
        };
        if next.is_number() {
            let count = match next.as_u32_checked() {
                Ok(v) => v,
                Err(e) => {
                    return Err(e);
                },
            };
            if syntax.mode == ParseMode::Strict && count == 0 {
                return Err(PdfError::ParserError);
            }
            proof {
                lemma_subsection_pos(
                    d,
                    syntax.pos as int,
                    syntax.mode,
                    start,
                    count,
                    0,
                    Seq::empty(),
                );
            }
            let objs = match parse_xref_sub_section(syntax, start, count) {
                Ok(o) => o,
                Err(e) => {
                    return Err(e);
                },
            };
            if syntax.mode == ParseMode::Strict && any_in_table(&table, &objs) {
                return Err(PdfError::ParserError);
            }
            extend_table(&mut table, &objs);
        }
        next_word = next;
    }
    if !next_word.is_equal(&trailer_kw) {
        return Ok(None);
    }
    let obj = match syntax.get_object() {
        Ok(o) => o,
        Err(e) => {
            return Err(e);
        },
    };
    match obj.into_dict() {
        Some(trailer) => {
            if syntax.mode == ParseMode::Strict && trailer.get(&size_key).is_none() {
                return Err(PdfError::ParserError);
            }
            table.trailer = trailer;
            Ok(Some(table))
        },
        None => Ok(None),
    }
}

// ---------------------------------------------------------------- Prev chains

/// `Prev`
pub open spec fn key_prev() -> Seq<u8> {
    seq![80u8, 114u8, 101u8, 118u8]
}

/// The offset of the previous section that a trailer names; 0 when it names none.
pub open spec fn spec_prev(t: Seq<(Seq<u8>, Obj)>) -> PdfResult<u64> {
    match dict_get(t, key_prev()) {
        Some(Obj::Number(lex)) => spec_number_as(lex, u64::MAX as int),
        Some(_) => Err(PdfError::ParserError),
        None => Ok(0),
    }
}

/// The section at `off`, an xref stream or an xref table: its entries and
/// trailer, or `None` when there is no table there.
#[verifier::opaque]
pub open spec fn spec_section_at(
    d: Seq<u8>,
    off: int,
    mode: ParseMode,
    x: Option<Seq<ObjectInfo>>,
    stream: bool,
) -> PdfResult<Option<(Map<u32, ObjectInfo>, Seq<(Seq<u8>, Obj)>)>> {
    if stream {
        match spec_parse_xref_stream(d, off, mode, x).1 {
            Ok((es, t)) => Ok(Some((map_extend(Map::empty(), es), t))),
            Err(e) => Err(e),
        }
    } else {
        spec_parse_xref_section(d, off, mode, x).1
    }
}

/// The offsets in the file that a chain has not visited yet.
pub open spec fn chain_measure(len: int, visited: Set<int>) -> nat {
    set_int_range(0, len).difference(visited).len()
}

/// A section is only found inside the file.
pub proof fn lemma_section_in_range(
    d: Seq<u8>,
    off: int,
    mode: ParseMode,
    x: Option<Seq<ObjectInfo>>,
    stream: bool,
)
    requires
        0 <= off,
        spec_section_at(d, off, mode, x, stream) matches Ok(Some(_)),
    ensures
        off < d.len(),
{
    reveal(spec_section_at);
    lemma_next_word(d, off);
}

/// Visiting one more offset of the file leaves fewer to visit.
pub proof fn lemma_chain_measure(len: int, visited: Set<int>, p: int)
    requires
        0 <= p < len,
        !visited.contains(p),
    ensures
        chain_measure(len, visited.insert(p)) < chain_measure(len, visited),
{
    lemma_int_range(0, len);
    let a = set_int_range(0, len).difference(visited);
    assert(set_int_range(0, len).difference(visited.insert(p)) =~= a.remove(p));
    lemma_len_subset(a, set_int_range(0, len));
    assert(a.contains(p));
}

/// Following the `Prev` offsets from `prev`: each section found is merged
/// under the ones before it, whose entries win. The chain ends at offset 0, at
/// an offset that was visited already, at a section without a `Prev`, or where
/// no xref table is found.
pub open spec fn spec_prev_chain(
    d: Seq<u8>,
    mode: ParseMode,
    x: Option<Seq<ObjectInfo>>,
    stream: bool,
    prev: u64,
    visited: Set<int>,
    m: Map<u32, ObjectInfo>,
    t: Seq<(Seq<u8>, Obj)>,
) -> PdfResult<(Map<u32, ObjectInfo>, Seq<(Seq<u8>, Obj)>)>
    decreases chain_measure(d.len() as int, visited),
{
    if prev == 0 || visited.contains(prev as int) {
        Ok((m, t))
    } else {
        match spec_section_at(d, prev as int, mode, x, stream) {
            Err(e) => Err(e),
            Ok(None) => Ok((m, t)),
            Ok(Some((m2, t2))) => match spec_prev(t2) {
                Err(e) => Err(e),
                Ok(np) => {
                    proof {
                        lemma_section_in_range(d, prev as int, mode, x, stream);
                        lemma_chain_measure(d.len() as int, visited, prev as int);
                    }
                    spec_prev_chain(
                        d,
                        mode,
                        x,
                        stream,
                        np,
                        visited.insert(prev as int),
                        m2.union_prefer_right(m),
                        if t.len() == 0 {
                            t2
                        } else {
                            t
                        },
                    )
                },
            },
        }
    }
}

/// The cross-reference data from the section at `off` and the chain of
/// sections that its `Prev` names.
pub open spec fn spec_load_xref(
    d: Seq<u8>,
    off: u64,
    mode: ParseMode,
    x: Option<Seq<ObjectInfo>>,
    stream: bool,
) -> PdfResult<(Map<u32, ObjectInfo>, Seq<(Seq<u8>, Obj)>)> {
    match spec_section_at(d, off as int, mode, x, stream) {
        Err(e) => Err(e),
        Ok(None) => Err(PdfError::ParserError),
        Ok(Some((m, t))) => match spec_prev(t) {
            Err(e) => Err(e),
            Ok(np) => spec_prev_chain(d, mode, x, stream, np, set![off as int], m, t),
        },
    }
}

/// The `Prev` offset of a trailer.
fn trailer_prev(t: &PdfDict) -> (r: PdfResult<u64>)
    ensures
        r == spec_prev(t@),
{
    let prev_key: [u8; 4] = [80u8, 114u8, 101u8, 118u8];
    assert(prev_key@ =~= key_prev());
    match t.get(&prev_key) {
        Some(o) => match o.as_number() {
            Some(n) => n.as_u64_checked(),
            None => Err(PdfError::ParserError),
        },
        None => Ok(0),
    }
}

/// The section at `off`.
fn section_at(syntax: &mut SyntaxParser, off: u64, stream: bool) -> (r: PdfResult<
    Option<CrossRefTable>,
>)
    ensures
        final(syntax).same_input(old(syntax)),
        match spec_section_at(
            old(syntax).data@,
            off as int,
            old(syntax).mode,
            old(syntax).xref_spec(),
            stream,
        ) {
            Ok(Some((m, t))) => r matches Ok(Some(table)) && xref_map(table.entries@) == m
                && table.trailer@ == t,
            Ok(None) => r matches Ok(None),
            Err(e) => r == Err::<Option<CrossRefTable>, PdfError>(e),
        },
{
    reveal(spec_section_at);
    if stream {
        match parse_xref_stream(syntax, off) {
            Ok(t) => Ok(Some(t)),
            Err(e) => Err(e),
        }
    } else {
        parse_xref_section(syntax, off)
    }
}

/// Whether `v` occurs in `s`.
fn contains_offset(s: &Vec<u64>, v: u64) -> (r: bool)
    ensures
        r == s@.contains(v),
{
    let mut i: usize = 0;
    while i < s.len()
        invariant
            0 <= i <= s@.len(),
            forall|j: int| 0 <= j < i ==> s@[j] != v,
        decreases s.len() - i,
    {
        if s[i] == v {
            assert(s@[i as int] == v);
            return true;
        }
        i = i + 1;
    }
    false
}

/// Loads the section at `off` and the sections its `Prev` chain names.
#[verifier::spinoff_prover]
fn load_xref_chain(syntax: &mut SyntaxParser, off: u64, stream: bool) -> (r: PdfResult<
    CrossRefTable,
>)
    ensures
        final(syntax).same_input(old(syntax)),
        match spec_load_xref(
            old(syntax).data@,
            off,
            old(syntax).mode,
            old(syntax).xref_spec(),
            stream,
        ) {
            Ok((m, t)) => r matches Ok(table) && xref_map(table.entries@) == m && table.trailer@
                == t,
            Err(e) => r == Err::<CrossRefTable, PdfError>(e),
        },
{
    let ghost d = syntax.data@;
    let ghost x = syntax.xref_spec();
    let ghost mode = syntax.mode;
    let mut table = match section_at(syntax, off, stream) {
        Ok(Some(t)) => t,
        Ok(None) => {
            return Err(PdfError::ParserError);
        },
        Err(e) => {
            return Err(e);
        },
    };
    let mut prev = match trailer_prev(&table.trailer) {
        Ok(p) => p,
        Err(e) => {
            return Err(e);
        },
    };
    let mut seen: Vec<u64> = Vec::new();
    seen.push(off);
    let ghost mut visited: Set<int> = set![off as int];
    proof {
        assert forall|v: u64| #[trigger] seen@.contains(v) <==> visited.contains(v as int) by {
            if v == off {
                assert(seen@[0] == v);
            }
            if seen@.contains(v) {
                let j = choose|j: int| 0 <= j < seen@.len() && seen@[j] == v;
                assert(j == 0);
            }
        }
    }
    loop
        invariant
            syntax.same_input(old(syntax)),
            d == old(syntax).data@,
            d == syntax.data@,
            mode == syntax.mode,
            x == syntax.xref_spec(),
            x == old(syntax).xref_spec(),
            mode == old(syntax).mode,
            forall|v: u64| #[trigger] seen@.contains(v) <==> visited.contains(v as int),
            forall|v: int| #[trigger] visited.contains(v) ==> 0 <= v <= u64::MAX,
            spec_load_xref(d, off, mode, x, stream) == spec_prev_chain(
                d,
                mode,
                x,
                stream,
                prev,
                visited,
                xref_map(table.entries@),
                table.trailer@,
            ),
        decreases chain_measure(d.len() as int, visited),
    {
        if prev == 0 || contains_offset(&seen, prev) {
            return Ok(table);
        }
        let sec = match section_at(syntax, prev, stream) {
            Ok(Some(t)) => t,
            Ok(None) => {
                return Ok(table);
            },
            Err(e) => {
                return Err(e);
            },
        };
        let np = match trailer_prev(&sec.trailer) {
            Ok(p) => p,
            Err(e) => {
                return Err(e);
            },
        };
        proof {
            lemma_section_in_range(d, prev as int, mode, x, stream);
            lemma_chain_measure(d.len() as int, visited, prev as int);
        }
        table.merge(sec);
        let ghost old_seen = seen@;
        seen.push(prev);
        proof {
            visited = visited.insert(prev as int);
            assert forall|v: u64| #[trigger] seen@.contains(v) <==> visited.contains(v as int) by {
                if v == prev {
                    assert(seen@[seen@.len() - 1] == v);
                } else if old_seen.contains(v) {
                    let j = choose|j: int| 0 <= j < old_seen.len() && old_seen[j] == v;
                    assert(seen@[j] == v);
                } else if seen@.contains(v) {
                    let j = choose|j: int| 0 <= j < seen@.len() && seen@[j] == v;
                    if j < old_seen.len() {
                        assert(old_seen[j] == v);
                    }
                }
            }
        }
        prev = np;
    }
}

/// Loads an xref table and the tables its `Prev` chain names.
fn load_xref_table(syntax: &mut SyntaxParser, xref_offset: u64) -> (r: PdfResult<CrossRefTable>)
    ensures
        final(syntax).same_input(old(syntax)),
        match spec_load_xref(
            old(syntax).data@,
            xref_offset,
            old(syntax).mode,
            old(syntax).xref_spec(),
            false,
        ) {
            Ok((m, t)) => r matches Ok(table) && xref_map(table.entries@) == m && table.trailer@
                == t,
            Err(e) => r == Err::<CrossRefTable, PdfError>(e),
        },
{
    load_xref_chain(syntax, xref_offset, false)
}

/// Loads an xref stream and the streams its `Prev` chain names.
fn load_xref_stream(syntax: &mut SyntaxParser, xref_offset: u64) -> (r: PdfResult<CrossRefTable>)
    ensures
        final(syntax).same_input(old(syntax)),
        match spec_load_xref(
            old(syntax).data@,
            xref_offset,
            old(syntax).mode,
            old(syntax).xref_spec(),
            true,
        ) {
            Ok((m, t)) => r matches Ok(table) && xref_map(table.entries@) == m && table.trailer@
                == t,
            Err(e) => r == Err::<CrossRefTable, PdfError>(e),
        },
{
    load_xref_chain(syntax, xref_offset, true)
}

/// Strict mode asks that object 0 be the head of the free list: free, at
/// offset 0, with generation 65535.
pub open spec fn strict_zero_ok(m: Map<u32, ObjectInfo>) -> bool {
    &&& m.contains_key(0)
    &&& m[0].state == ObjectState::Free
    &&& m[0].offset == 0
    &&& m[0].gennum == 65535
}

/// Checks the entry of object 0 as strict mode asks.
fn validate_strict_xref_table(xref: &CrossRefTable) -> (r: PdfResult<()>)
    ensures
        r is Ok <==> strict_zero_ok(xref_map(xref.entries@)),
        r is Err ==> r == Err::<(), PdfError>(PdfError::ParserError),
{
    let zero = match xref.lookup(&0) {
        Some(z) => z,
        None => {
            return Err(PdfError::ParserError);
        },
    };
    if zero.state() != ObjectState::Free {
        return Err(PdfError::ParserError);
    }
    if zero.offset() != 0 {
        return Err(PdfError::ParserError);
    }
    if zero.gennum() != 65535 {
        return Err(PdfError::ParserError);
    }
    Ok(())
}

/// The cross-reference data of a file: found from the last `startxref`, as
/// an xref table when the keyword `xref` stands there and as an xref stream
/// otherwise, with the sections that the `Prev` chain names.
pub open spec fn spec_parse_xref(d: Seq<u8>, mode: ParseMode, x: Option<Seq<ObjectInfo>>) -> PdfResult<
    (Map<u32, ObjectInfo>, Seq<(Seq<u8>, Obj)>),
> {
    match spec_find_start_xref(d, mode).1 {
        Err(e) => Err(e),
        Ok(last) => match spec_next_word(d, last as int).1 {
            Err(e) => Err(e),
            Ok((raw, _)) => match spec_load_xref(d, last, mode, x, raw != kw_xref()) {
                Err(e) => Err(e),
                Ok((m, t)) => if mode == ParseMode::Strict && !strict_zero_ok(m) {
                    Err(PdfError::ParserError)
                } else {
                    Ok((m, t))
                },
            },
        },
    }
}

/// Reads the cross-reference data of the file.
pub fn parse_xref(syntax: &mut SyntaxParser) -> (r: PdfResult<CrossRefTable>)
    ensures
        final(syntax).same_input(old(syntax)),
        match spec_parse_xref(old(syntax).data@, old(syntax).mode, old(syntax).xref_spec()) {
            Ok((m, t)) => r matches Ok(table) && xref_map(table.entries@) == m && table.trailer@
                == t,
            Err(e) => r == Err::<CrossRefTable, PdfError>(e),
        },
{
    let last_xref_offset = match find_start_xref(syntax) {
        Ok(o) => o,
        Err(e) => {
            return Err(e);
        },
    };
    syntax.pos = last_xref_offset;
    let word = match syntax.peek_word() {
        Ok(w) => w,
        Err(e) => {
            return Err(e);
        },
    };
    let xref_kw: [u8; 4] = [120u8, 114u8, 101u8, 102u8];
    assert(xref_kw@ =~= kw_xref());
    let loaded = if word.is_equal(&xref_kw) {
        load_xref_table(syntax, last_xref_offset)
    } else {
        load_xref_stream(syntax, last_xref_offset)
    };
    let xref = match loaded {
        Ok(t) => t,
        Err(e) => {
            return Err(e);
        },
    };
    if syntax.mode == ParseMode::Strict {
        match validate_strict_xref_table(&xref) {
            Ok(_) => {},
            Err(e) => {
                return Err(e);
            },
        }
    }
    Ok(xref)
}

// ---------------------------------------------------------------- the parser

/// A parser of the indirect objects of a file.
#[derive(Debug)]
pub struct PdfParser {
    pub syntax: SyntaxParser,
}

impl PdfParser {
    pub fn new(syntax: SyntaxParser) -> (r: PdfParser)
        ensures
            r.syntax == syntax,
    {
        PdfParser { syntax }
    }

    /// The object of the indirect object at `pos`.
    pub fn parse_indirect_obj(&mut self, pos: u64) -> (r: PdfResult<PdfObject>)
        ensures
            final(self).syntax.same_input(&old(self).syntax),
            final(self).syntax.pos == spec_get_indirect(
                old(self).syntax.data@,
                pos as int,
                old(self).syntax.mode,
                old(self).syntax.xref_spec(),
            ).0,
            match spec_get_indirect(
                old(self).syntax.data@,
                pos as int,
                old(self).syntax.mode,
                old(self).syntax.xref_spec(),
            ).1 {
                Ok((_, _, o)) => r matches Ok(obj) && obj@ == o,
                Err(e) => r == Err::<PdfObject, PdfError>(e),
            },
    {
        self.syntax.pos = pos;
        let indirect = match self.syntax.get_indirect_object() {
            Ok(i) => i,
            Err(e) => {
                return Err(e);
            },
        };
        Ok(indirect.to_obj())
    }
}

} // verus!
