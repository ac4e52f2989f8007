use vstd::prelude::*;
use crate::cross_ref_table::ObjectInfo;
use crate::error::{PdfError, PdfResult};
use crate::objects::{Obj, PdfObject, items_view, lemma_items_view_push};
use crate::page::opcode::{is_op, spec_is_op};
use crate::page::operator::Operator;
use crate::parser::syntax::SyntaxParser;
use crate::parser::syntax_spec::{
    ParseMode, lemma_get_object_pos, lemma_next_word, rem, spec_get_object, spec_next_word,
};
use vstd::utf8::{decode_utf8, valid_utf8};

verus! {

/// `BI`
pub open spec fn kw_bi() -> Seq<u8> {
    seq![66u8, 73u8]
}

/// `ID`
pub open spec fn kw_id() -> Seq<u8> {
    seq![73u8, 68u8]
}

/// The object read at `p`, as `spec_get_object` gives it; kept folded in the
/// proofs of this module.
#[verifier::opaque]
pub open spec fn object_at(d: Seq<u8>, p: int, mode: ParseMode, x: Option<Seq<ObjectInfo>>) -> (
    int,
    PdfResult<Obj>,
) {
    spec_get_object(d, p, mode, x)
}

pub proof fn lemma_object_at(d: Seq<u8>, p: int, mode: ParseMode, x: Option<Seq<ObjectInfo>>)
    ensures
        object_at(d, p, mode, x) == spec_get_object(d, p, mode, x),
{
    reveal(object_at);
}

/// The dictionary of an inline image from position `p`: pairs of a name and
/// an object up to the word `ID`, which is read too. A key that is not a name
/// is refused. Every entry read moves the position on (`lemma_get_object_pos`),
/// so the branch for one that does not is never taken; it only bounds the
/// recursion.
pub open spec fn spec_inline_image(
    d: Seq<u8>,
    p: int,
    mode: ParseMode,
    x: Option<Seq<ObjectInfo>>,
) -> (int, PdfResult<()>)
    decreases rem(d, p),
{
    if p < 0 {
        (p, Err(PdfError::ContentParseError))
    } else {
        let (pw, w) = spec_next_word(d, p);
        match w {
            Err(e) => (p, Err(e)),
            Ok((raw, _)) => if raw == kw_id() {
                (pw, Ok(()))
            } else {
                let (p1, r1) = object_at(d, p, mode, x);
                match r1 {
                    Err(e) => (p1, Err(e)),
                    Ok(Obj::Name(_)) => {
                        let (p2, r2) = object_at(d, p1, mode, x);
                        match r2 {
                            Err(e) => (p2, Err(e)),
                            Ok(_) => if p2 > p {
                                proof {
                                    lemma_next_word(d, p);
                                }
                                spec_inline_image(d, p2, mode, x)
                            } else {
                                (p2, Err(PdfError::ContentParseError))
                            },
                        }
                    },
                    Ok(_) => (p1, Err(PdfError::ContentParseError)),
                }
            },
        }
    }
}

/// The next operator from position `p`, after the operands `acc`: operands are
/// read up to a word that is an operator, whose text is the operator's name.
/// The end of the data gives `None`; another error of the first word gives
/// `ContentParseError`. Every operand read moves the position on
/// (`lemma_get_object_pos`), so the branch for one that does not is never
/// taken; it only bounds the recursion.
pub open spec fn spec_read_operator(
    d: Seq<u8>,
    p: int,
    mode: ParseMode,
    x: Option<Seq<ObjectInfo>>,
    acc: Seq<Obj>,
) -> (int, PdfResult<Option<(Seq<char>, Seq<Obj>)>>)
    decreases rem(d, p),
{
    if p < 0 {
        (p, Err(PdfError::ContentParseError))
    } else {
        let (pw, w) = spec_next_word(d, p);
        match w {
            Err(PdfError::EndofFile) => (p, Ok(None)),
            Err(_) => (p, Err(PdfError::ContentParseError)),
            Ok((raw, _)) => if spec_is_op(raw) {
                let (q, r) = if raw == kw_bi() {
                    spec_inline_image(d, pw, mode, x)
                } else {
                    (p, Ok(()))
                };
                match r {
                    Err(e) => (q, Err(e)),
                    Ok(_) => {
                        let (q2, w2) = spec_next_word(d, q);
                        match w2 {
                            Err(e) => (q2, Err(e)),
                            Ok((raw2, _)) => if valid_utf8(raw2) {
                                (q2, Ok(Some((decode_utf8(raw2), acc))))
                            } else {
                                (q2, Err(PdfError::ParserError))
                            },
                        }
                    },
                }
            } else {
                let (p2, ro) = object_at(d, p, mode, x);
                match ro {
                    Err(e) => (p2, Err(e)),
                    Ok(o) => if p2 > p {
                        proof {
                            lemma_next_word(d, p);
                        }
                        spec_read_operator(d, p2, mode, x, acc.push(o))
                    } else {
                        (p2, Err(PdfError::ContentParseError))
                    },
                }
            },
        }
    }
}

/// A reader of the operators of a content stream.
#[derive(Debug)]
pub struct ContentParser {
    pub syntax: SyntaxParser,
}

impl ContentParser {
    pub fn new(syntax: SyntaxParser) -> (r: ContentParser)
        ensures
            r.syntax == syntax,
    {
        ContentParser { syntax }
    }

    /// Reads the dictionary of an inline image, up to and with `ID`.
    fn skip_inline_image(&mut self) -> (r: PdfResult<()>)
        ensures
            final(self).syntax.same_input(&old(self).syntax),
            final(self).syntax.pos == spec_inline_image(
                old(self).syntax.data@,
                old(self).syntax.pos as int,
                old(self).syntax.mode,
                old(self).syntax.xref_spec(),
            ).0,
            r == spec_inline_image(
                old(self).syntax.data@,
                old(self).syntax.pos as int,
                old(self).syntax.mode,
                old(self).syntax.xref_spec(),
            ).1,
    {
        let ghost d = self.syntax.data@;
        let ghost mode = self.syntax.mode;
        let ghost x = self.syntax.xref_spec();
        let id_kw: [u8; 2] = [73u8, 68u8];
        assert(id_kw@ =~= kw_id());
        loop
            invariant
                self.syntax.same_input(&old(self).syntax),
                d == self.syntax.data@,
                mode == self.syntax.mode,
                x == self.syntax.xref_spec(),
                id_kw@ == kw_id(),
                spec_inline_image(d, self.syntax.pos as int, mode, x) == spec_inline_image(
                    d,
                    old(self).syntax.pos as int,
                    mode,
                    x,
                ),
            decreases rem(d, self.syntax.pos as int),
        {
            let before = self.syntax.pos;
            proof {
                lemma_next_word(d, before as int);
            }
            let next_word = match self.syntax.peek_word() {
                Ok(w) => w,
                Err(e) => {
                    return Err(e);
                },
            };
            if next_word.is_equal(&id_kw) {
                match self.syntax.get_next_word() {
                    Ok(_) => {},
                    Err(e) => {
                        return Err(e);
                    },
                }
                return Ok(());
            }
            proof {
                lemma_object_at(d, self.syntax.pos as int, mode, x);
            }
            let key = match self.syntax.get_object() {
                Ok(o) => o,
                Err(e) => {
                    return Err(e);
                },
            };
            if key.as_name().is_none() {
                return Err(PdfError::ContentParseError);
            }
            let ghost key_end = self.syntax.pos;
            proof {
                lemma_object_at(d, self.syntax.pos as int, mode, x);
            }
            let value = match self.syntax.get_object() {
                Ok(o) => o,
                Err(e) => {
                    return Err(e);
                },
            };
            proof {
                lemma_get_object_pos(d, before as int, mode, x);
                lemma_get_object_pos(d, key_end as int, mode, x);
            }
        }
    }

    /// Reads the next operator with its operands; `None` at the end of the
    /// content.
    pub fn read_operator(&mut self) -> (r: PdfResult<Option<Operator>>)
        ensures
            final(self).syntax.same_input(&old(self).syntax),
            final(self).syntax.pos == spec_read_operator(
                old(self).syntax.data@,
                old(self).syntax.pos as int,
                old(self).syntax.mode,
                old(self).syntax.xref_spec(),
                Seq::empty(),
            ).0,
            match spec_read_operator(
                old(self).syntax.data@,
                old(self).syntax.pos as int,
                old(self).syntax.mode,
                old(self).syntax.xref_spec(),
                Seq::empty(),
            ).1 {
                Ok(Some((name, operands))) => r matches Ok(Some(op)) && op.op@ == name
                    && items_view(op.operands@) == operands,
                Ok(None) => r matches Ok(None),
                Err(e) => r matches Err(e2) && e2 == e,
            },
    {
        let ghost d = self.syntax.data@;
        let ghost mode = self.syntax.mode;
        let ghost x = self.syntax.xref_spec();
        let bi_kw: [u8; 2] = [66u8, 73u8];
        assert(bi_kw@ =~= kw_bi());
        let mut operands: Vec<PdfObject> = Vec::new();
        loop
            invariant
                self.syntax.same_input(&old(self).syntax),
                d == self.syntax.data@,
                mode == self.syntax.mode,
                x == self.syntax.xref_spec(),
                bi_kw@ == kw_bi(),
                spec_read_operator(d, self.syntax.pos as int, mode, x, items_view(operands@))
                    == spec_read_operator(d, old(self).syntax.pos as int, mode, x, Seq::empty()),
            decreases rem(d, self.syntax.pos as int),
        {
            let before = self.syntax.pos;
            proof {
                lemma_next_word(d, before as int);
            }
            let word = match self.syntax.peek_word() {
                Ok(w) => w,
                Err(PdfError::EndofFile) => {
                    return Ok(None);
                },
                Err(_) => {
                    return Err(PdfError::ContentParseError);
                },
            };
            if is_op(word.raw()) {
                if word.is_equal(&bi_kw) {
                    match self.syntax.get_next_word() {
                        Ok(_) => {},
                        Err(e) => {
                            return Err(e);
                        },
                    }
                    match self.skip_inline_image() {
                        Ok(_) => {},
                        Err(e) => {
                            return Err(e);
                        },
                    }
                }
                let opword = match self.syntax.get_next_word() {
                    Ok(w) => w,
                    Err(e) => {
                        return Err(e);
                    },
                };
                let opname = match opword.into_string() {
                    Ok(s) => s,
                    Err(e) => {
                        return Err(e);
                    },
                };
                return Ok(Some(Operator::new(opname, operands)));
            } else {
                proof {
                    lemma_object_at(d, self.syntax.pos as int, mode, x);
                }
                let obj = match self.syntax.get_object() {
                    Ok(o) => o,
                    Err(e) => {
                        return Err(e);
                    },
                };
                proof {
                    lemma_get_object_pos(d, before as int, mode, x);
                    lemma_items_view_push(operands@, obj);
                }
                operands.push(obj);
            }
        }
    }
}

} // verus!
