use vstd::prelude::*;
use crate::cross_ref_table::ObjectInfo;
use crate::error::PdfError;
use crate::objects::Obj;
use crate::page::content_builder::{line_out, show_text_line};
use crate::page::content_parser::{kw_bi, lemma_object_at, spec_read_operator};
use crate::page::opcode::spec_is_op;
use crate::parser::syntax_spec::{ParseMode, skip_ws, spec_get_object, spec_next_word};
use crate::round_trip::{
    law_written_string_reads_back, lemma_get_object_skips_space, lemma_next_word_skips_space,
    lemma_word_at, word_bytes,
};
use crate::writer::obj_bytes;
use vstd::utf8::{decode_utf8, valid_utf8};

verus! {

/// A line of a content stream as the content builder writes it: an operator
/// without operands, or a text to show.
pub enum ContentLine {
    Op(Seq<u8>),
    ShowText(Seq<u8>),
}

/// `Tj`
pub open spec fn kw_tj() -> Seq<u8> {
    seq![84u8, 106u8]
}

/// The bytes of a line, with its line feed.
pub open spec fn line_bytes(l: ContentLine) -> Seq<u8> {
    match l {
        ContentLine::Op(n) => line_out(n),
        ContentLine::ShowText(t) => line_out(show_text_line(t)),
    }
}

/// The lines one after the other.
pub open spec fn content_bytes(ls: Seq<ContentLine>) -> Seq<u8>
    decreases ls.len(),
{
    if ls.len() == 0 {
        Seq::empty()
    } else {
        content_bytes(ls.drop_last()) + line_bytes(ls[ls.len() - 1])
    }
}

/// Lines that read back: an operator's name that is a word, names an
/// operator other than `BI`, and is UTF-8; or any text to show.
pub open spec fn line_ok(l: ContentLine) -> bool {
    match l {
        ContentLine::Op(n) => n.len() > 0 && word_bytes(n) && spec_is_op(n) && n != kw_bi() && valid_utf8(n),
        ContentLine::ShowText(_) => true,
    }
}

/// The operator that a line reads back as: its name and its operands.
pub open spec fn line_operator(l: ContentLine) -> (Seq<char>, Seq<Obj>) {
    match l {
        ContentLine::Op(n) => (decode_utf8(n), Seq::empty()),
        ContentLine::ShowText(t) => (decode_utf8(kw_tj()), seq![Obj::Str(t, false)]),
    }
}

/// Where line `i` starts.
pub open spec fn line_start(ls: Seq<ContentLine>, i: int) -> int {
    content_bytes(ls.take(i)).len() as int
}

/// Where reading line `i` starts: at the start, or at the line feed that ends
/// the line before it, where reading the line before stopped.
pub open spec fn read_pos(ls: Seq<ContentLine>, i: int) -> int {
    if i == 0 {
        0
    } else {
        line_start(ls, i) - 1
    }
}

/// The lines written first come first.
proof fn lemma_content_prefix(ls: Seq<ContentLine>, m: int)
    requires
        0 <= m <= ls.len(),
    ensures
        content_bytes(ls.take(m)).len() <= content_bytes(ls).len(),
        content_bytes(ls).take(content_bytes(ls.take(m)).len() as int) == content_bytes(ls.take(m)),
    decreases ls.len(),
{
    if m == ls.len() {
        assert(ls.take(m) =~= ls);
    } else {
        let l2 = ls.drop_last();
        lemma_content_prefix(l2, m);
        assert(l2.take(m) =~= ls.take(m));
        let t = content_bytes(ls.take(m));
        assert(content_bytes(ls).take(t.len() as int) =~= content_bytes(l2).take(t.len() as int));
    }
}

/// Line `i` stands between its start and the start of the next line, and
/// ends with a line feed.
proof fn lemma_line_at(ls: Seq<ContentLine>, i: int)
    requires
        0 <= i < ls.len(),
    ensures
        line_start(ls, i + 1) == line_start(ls, i) + line_bytes(ls[i]).len(),
        line_start(ls, i + 1) <= content_bytes(ls).len(),
        content_bytes(ls).subrange(line_start(ls, i), line_start(ls, i + 1)) == line_bytes(ls[i]),
        content_bytes(ls)[line_start(ls, i + 1) - 1] == 10u8,
        i == ls.len() - 1 ==> line_start(ls, i + 1) == content_bytes(ls).len(),
{
    let d = content_bytes(ls);
    let t1 = ls.take(i + 1);
    assert(t1.drop_last() =~= ls.take(i));
    assert(t1[t1.len() - 1] == ls[i]);
    lemma_content_prefix(ls, i + 1);
    let lb = line_bytes(ls[i]);
    let s = line_start(ls, i);
    let e = line_start(ls, i + 1);
    assert forall|j: int| 0 <= j < lb.len() implies #[trigger] d.subrange(s, e)[j] == lb[j] by {
        assert(d[s + j] == d.take(e)[s + j]);
        assert(content_bytes(t1)[s + j] == lb[j]);
    }
    assert(d.subrange(s, e) =~= lb);
    assert(d[e - 1] == d.take(e)[e - 1]);
    assert(lb[lb.len() - 1] == 10u8);
    assert(content_bytes(t1)[e - 1] == lb[lb.len() - 1]);
    if i == ls.len() - 1 {
        assert(t1 =~= ls);
    }
}

/// `(`, where a shown text starts, is no operator.
proof fn lemma_open_paren_not_op()
    ensures
        !spec_is_op(seq![40u8]),
{
}

/// `Tj` is an operator other than `BI`, in UTF-8, that decodes to its letters.
proof fn lemma_tj()
    ensures
        spec_is_op(kw_tj()),
        kw_tj() != kw_bi(),
        valid_utf8(kw_tj()),
        word_bytes(kw_tj()),
{
    reveal_with_fuel(valid_utf8, 3);
    assert(kw_tj().subrange(1, 2) =~= seq![106u8]);
    assert(kw_tj().subrange(1, 2).subrange(1, 1) =~= Seq::<u8>::empty());
}

/// One line written at `s` reads back, from `s` or from a line feed just
/// before it: reading stops after its last word.
#[verifier::spinoff_prover]
#[verifier::rlimit(40)]
pub proof fn lemma_read_line(
    d: Seq<u8>,
    r: int,
    s: int,
    l: ContentLine,
    mode: ParseMode,
    x: Option<Seq<ObjectInfo>>,
)
    requires
        line_ok(l),
        0 <= r,
        r == s || (r == s - 1 && d[r] == 10u8),
        s + line_bytes(l).len() <= d.len(),
        d.subrange(s, s + line_bytes(l).len()) == line_bytes(l),
    ensures
        spec_read_operator(d, r, mode, x, Seq::empty()) == (
            s + line_bytes(l).len() - 1,
            Ok::<Option<(Seq<char>, Seq<Obj>)>, PdfError>(Some(line_operator(l))),
        ),
{
    let lb = line_bytes(l);
    assert forall|j: int| 0 <= j < lb.len() implies #[trigger] d[s + j] == lb[j] by {
        assert(d[s + j] == d.subrange(s, s + lb.len())[j]);
    }
    if r == s - 1 {
        lemma_next_word_skips_space(d, r);
        lemma_get_object_skips_space(d, r, mode, x);
    }
    match l {
        ContentLine::Op(n) => {
            assert(d.subrange(s, s + n.len()) =~= n);
            assert(d[s + n.len()] == lb[n.len() as int]);
            lemma_word_at(d, s, n);
        },
        ContentLine::ShowText(t) => {
            let o = Obj::Str(t, false);
            let ob = obj_bytes(o);
            let e = s + ob.len();
            assert(lb =~= ob + seq![32u8, 84u8, 106u8, 10u8]);
            let pre = d.take(s);
            let rest = d.skip(e);
            assert(d =~= pre + d.subrange(s, e) + rest);
            assert(d.subrange(s, e) =~= ob);
            law_written_string_reads_back(pre, t, false, rest, mode, x);
            lemma_object_at(d, r, mode, x);
            assert(d[s + 0] == lb[0]);
            assert(skip_ws(d, s, false) == Some(s));
            assert(spec_next_word(d, s).1 == Ok::<(Seq<u8>, bool), PdfError>((seq![40u8], false)));
            lemma_open_paren_not_op();
            assert(d[e] == lb[ob.len() as int]);
            lemma_next_word_skips_space(d, e);
            assert(d[s + (ob.len() + 1)] == lb[(ob.len() + 1) as int]);
            assert(d[s + (ob.len() + 2)] == lb[(ob.len() + 2) as int]);
            assert(d[s + (ob.len() + 3)] == lb[(ob.len() + 3) as int]);
            assert(d.subrange(e + 1, e + 3) =~= kw_tj());
            lemma_tj();
            lemma_word_at(d, e + 1, kw_tj());
            assert(!crate::objects::spec_is_number_token(kw_tj()));
            assert(seq![Obj::Str(t, false)] =~= Seq::<Obj>::empty().push(Obj::Str(t, false)));
            assert(spec_next_word(d, e) == (e + 3, Ok::<(Seq<u8>, bool), PdfError>((kw_tj(), false))));
            assert(spec_read_operator(d, e, mode, x, seq![o]) == (
                e + 3,
                Ok::<Option<(Seq<char>, Seq<Obj>)>, PdfError>(Some((decode_utf8(kw_tj()), seq![o]))),
            ));
            assert(spec_get_object(d, s, mode, x) == (e, Ok::<Obj, PdfError>(o)));
            assert(spec_read_operator(d, r, mode, x, Seq::empty()) == spec_read_operator(d, e, mode, x, seq![o]));
        },
    }
}

/// Content that the content builder writes reads back, line by line, as the
/// operators written: reading from where the line before stopped gives the
/// next line's operator with its operands, and after the last line reading
/// finds the end of the content.
#[verifier::spinoff_prover]
pub proof fn law_built_content_reads_back(ls: Seq<ContentLine>, i: int, mode: ParseMode, x: Option<Seq<ObjectInfo>>)
    requires
        forall|j: int| 0 <= j < ls.len() ==> line_ok(#[trigger] ls[j]),
        0 <= i <= ls.len(),
    ensures
        spec_read_operator(content_bytes(ls), read_pos(ls, i), mode, x, Seq::empty()) == if i < ls.len() {
            (
                line_start(ls, i + 1) - 1,
                Ok::<Option<(Seq<char>, Seq<Obj>)>, PdfError>(Some(line_operator(ls[i]))),
            )
        } else {
            (read_pos(ls, i), Ok::<Option<(Seq<char>, Seq<Obj>)>, PdfError>(None))
        },
{
    let d = content_bytes(ls);
    if i < ls.len() {
        lemma_line_at(ls, i);
        if i > 0 {
            lemma_line_at(ls, i - 1);
        } else {
            assert(ls.take(0) =~= Seq::<ContentLine>::empty());
        }
        lemma_read_line(d, read_pos(ls, i), line_start(ls, i), ls[i], mode, x);
    } else if ls.len() == 0 {
        assert(d =~= Seq::<u8>::empty());
    } else {
        lemma_line_at(ls, i - 1);
        let r = read_pos(ls, i);
        assert(r == d.len() - 1);
        assert(skip_ws(d, r + 1, false) is None);
        assert(skip_ws(d, r, false) is None);
    }
}

} // verus!
