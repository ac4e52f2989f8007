use vstd::prelude::*;
use crate::cross_ref_table::ObjectInfo;
use crate::error::PdfError;
use crate::objects::{Obj, spec_is_number_token};
use crate::page::content_parser::{kw_bi, lemma_object_at, spec_read_operator};
use crate::page::opcode::spec_is_op;
use crate::parser::syntax_spec::{ParseMode, kw_r, kw_stream, spec_next_word};
use crate::read_back::{lemma_read_atom, ok_after, written_at};
use crate::round_trip::{lemma_next_word_skips_space, lemma_word_at, plain_name, word_bytes};
use crate::writer::obj_bytes;
use vstd::utf8::{decode_utf8, valid_utf8};

verus! {

/// The operators of content streams, as the PDF reference lists them:
/// general graphics state, special graphics state, path construction, path
/// painting, clipping, text objects, text state, text positioning, text
/// showing, Type 3 fonts, colour, shading, inline images, XObjects, marked
/// content and compatibility.
pub open spec fn content_operators() -> Seq<Seq<u8>> {
    seq![
        seq![119u8],
        seq![74u8],
        seq![106u8],
        seq![77u8],
        seq![100u8],
        seq![105u8],
        seq![114u8, 105u8],
        seq![103u8, 115u8],
        seq![113u8],
        seq![81u8],
        seq![99u8, 109u8],
        seq![109u8],
        seq![108u8],
        seq![99u8],
        seq![118u8],
        seq![114u8, 101u8],
        seq![121u8],
        seq![104u8],
        seq![115u8],
        seq![70u8],
        seq![102u8, 42u8],
        seq![66u8],
        seq![66u8, 42u8],
        seq![98u8],
        seq![98u8, 42u8],
        seq![110u8],
        seq![83u8],
        seq![102u8],
        seq![87u8],
        seq![87u8, 42u8],
        seq![66u8, 84u8],
        seq![69u8, 84u8],
        seq![84u8, 99u8],
        seq![84u8, 119u8],
        seq![84u8, 122u8],
        seq![84u8, 76u8],
        seq![84u8, 102u8],
        seq![84u8, 114u8],
        seq![84u8, 115u8],
        seq![84u8, 100u8],
        seq![84u8, 68u8],
        seq![84u8, 109u8],
        seq![84u8, 42u8],
        seq![84u8, 106u8],
        seq![39u8],
        seq![34u8],
        seq![84u8, 74u8],
        seq![100u8, 48u8],
        seq![100u8, 49u8],
        seq![99u8, 115u8],
        seq![67u8, 83u8],
        seq![115u8, 99u8],
        seq![83u8, 67u8],
        seq![115u8, 99u8, 110u8],
        seq![83u8, 67u8, 78u8],
        seq![103u8],
        seq![71u8],
        seq![114u8, 103u8],
        seq![82u8, 71u8],
        seq![107u8],
        seq![75u8],
        seq![115u8, 104u8],
        seq![66u8, 73u8],
        seq![73u8, 68u8],
        seq![69u8, 73u8],
        seq![68u8, 111u8],
        seq![77u8, 80u8],
        seq![68u8, 80u8],
        seq![66u8, 77u8, 67u8],
        seq![66u8, 68u8, 67u8],
        seq![69u8, 77u8, 67u8],
        seq![66u8, 88u8],
        seq![69u8, 88u8],
    ]
}

/// The table, entry by entry.
proof fn lemma_operator_entries()
    ensures
        content_operators().len() == 73,
        content_operators()[0] == seq![119u8],
        content_operators()[1] == seq![74u8],
        content_operators()[2] == seq![106u8],
        content_operators()[3] == seq![77u8],
        content_operators()[4] == seq![100u8],
        content_operators()[5] == seq![105u8],
        content_operators()[6] == seq![114u8, 105u8],
        content_operators()[7] == seq![103u8, 115u8],
        content_operators()[8] == seq![113u8],
        content_operators()[9] == seq![81u8],
        content_operators()[10] == seq![99u8, 109u8],
        content_operators()[11] == seq![109u8],
        content_operators()[12] == seq![108u8],
        content_operators()[13] == seq![99u8],
        content_operators()[14] == seq![118u8],
        content_operators()[15] == seq![114u8, 101u8],
        content_operators()[16] == seq![121u8],
        content_operators()[17] == seq![104u8],
        content_operators()[18] == seq![115u8],
        content_operators()[19] == seq![70u8],
        content_operators()[20] == seq![102u8, 42u8],
        content_operators()[21] == seq![66u8],
        content_operators()[22] == seq![66u8, 42u8],
        content_operators()[23] == seq![98u8],
        content_operators()[24] == seq![98u8, 42u8],
        content_operators()[25] == seq![110u8],
        content_operators()[26] == seq![83u8],
        content_operators()[27] == seq![102u8],
        content_operators()[28] == seq![87u8],
        content_operators()[29] == seq![87u8, 42u8],
        content_operators()[30] == seq![66u8, 84u8],
        content_operators()[31] == seq![69u8, 84u8],
        content_operators()[32] == seq![84u8, 99u8],
        content_operators()[33] == seq![84u8, 119u8],
        content_operators()[34] == seq![84u8, 122u8],
        content_operators()[35] == seq![84u8, 76u8],
        content_operators()[36] == seq![84u8, 102u8],
        content_operators()[37] == seq![84u8, 114u8],
        content_operators()[38] == seq![84u8, 115u8],
        content_operators()[39] == seq![84u8, 100u8],
        content_operators()[40] == seq![84u8, 68u8],
        content_operators()[41] == seq![84u8, 109u8],
        content_operators()[42] == seq![84u8, 42u8],
        content_operators()[43] == seq![84u8, 106u8],
        content_operators()[44] == seq![39u8],
        content_operators()[45] == seq![34u8],
        content_operators()[46] == seq![84u8, 74u8],
        content_operators()[47] == seq![100u8, 48u8],
        content_operators()[48] == seq![100u8, 49u8],
        content_operators()[49] == seq![99u8, 115u8],
        content_operators()[50] == seq![67u8, 83u8],
        content_operators()[51] == seq![115u8, 99u8],
        content_operators()[52] == seq![83u8, 67u8],
        content_operators()[53] == seq![115u8, 99u8, 110u8],
        content_operators()[54] == seq![83u8, 67u8, 78u8],
        content_operators()[55] == seq![103u8],
        content_operators()[56] == seq![71u8],
        content_operators()[57] == seq![114u8, 103u8],
        content_operators()[58] == seq![82u8, 71u8],
        content_operators()[59] == seq![107u8],
        content_operators()[60] == seq![75u8],
        content_operators()[61] == seq![115u8, 104u8],
        content_operators()[62] == seq![66u8, 73u8],
        content_operators()[63] == seq![73u8, 68u8],
        content_operators()[64] == seq![69u8, 73u8],
        content_operators()[65] == seq![68u8, 111u8],
        content_operators()[66] == seq![77u8, 80u8],
        content_operators()[67] == seq![68u8, 80u8],
        content_operators()[68] == seq![66u8, 77u8, 67u8],
        content_operators()[69] == seq![66u8, 68u8, 67u8],
        content_operators()[70] == seq![69u8, 77u8, 67u8],
        content_operators()[71] == seq![66u8, 88u8],
        content_operators()[72] == seq![69u8, 88u8],
{
    reveal_with_fuel(content_operators, 1);
}

/// A word is an operator of content streams exactly when it is in the table of
/// operators: every operator of the table (`Do`, which paints an XObject,
/// among them) is read as an operator, and no other word is.
#[verifier::rlimit(60)]
pub proof fn law_operators_are_the_table(n: Seq<u8>)
    ensures
        spec_is_op(n) <==> content_operators().contains(n),
{
    lemma_operator_entries();
    let t = content_operators();
    if content_operators().contains(n) {
        let i = choose|i: int| 0 <= i < t.len() && t[i] == n;
        assert(i == 0 || i == 1 || i == 2 || i == 3 || i == 4 || i == 5 || i == 6 || i == 7 || i == 8 || i == 9 || i == 10 || i == 11 || i == 12 || i == 13 || i == 14 || i == 15 || i == 16 || i == 17 || i == 18 || i == 19 || i == 20 || i == 21 || i == 22 || i == 23 || i == 24 || i == 25 || i == 26 || i == 27 || i == 28 || i == 29 || i == 30 || i == 31 || i == 32 || i == 33 || i == 34 || i == 35 || i == 36 || i == 37 || i == 38 || i == 39 || i == 40 || i == 41 || i == 42 || i == 43 || i == 44 || i == 45 || i == 46 || i == 47 || i == 48 || i == 49 || i == 50 || i == 51 || i == 52 || i == 53 || i == 54 || i == 55 || i == 56 || i == 57 || i == 58 || i == 59 || i == 60 || i == 61 || i == 62 || i == 63 || i == 64 || i == 65 || i == 66 || i == 67 || i == 68 || i == 69 || i == 70 || i == 71 || i == 72);
    }
    if spec_is_op(n) {
        if n.len() == 1 && n[0] == 119u8 {
            assert(n =~= t[0]);
        }
        if n.len() == 1 && n[0] == 74u8 {
            assert(n =~= t[1]);
        }
        if n.len() == 1 && n[0] == 106u8 {
            assert(n =~= t[2]);
        }
        if n.len() == 1 && n[0] == 77u8 {
            assert(n =~= t[3]);
        }
        if n.len() == 1 && n[0] == 100u8 {
            assert(n =~= t[4]);
        }
        if n.len() == 1 && n[0] == 105u8 {
            assert(n =~= t[5]);
        }
        if n.len() == 2 && n[0] == 114u8 && n[1] == 105u8 {
            assert(n =~= t[6]);
        }
        if n.len() == 2 && n[0] == 103u8 && n[1] == 115u8 {
            assert(n =~= t[7]);
        }
        if n.len() == 1 && n[0] == 113u8 {
            assert(n =~= t[8]);
        }
        if n.len() == 1 && n[0] == 81u8 {
            assert(n =~= t[9]);
        }
        if n.len() == 2 && n[0] == 99u8 && n[1] == 109u8 {
            assert(n =~= t[10]);
        }
        if n.len() == 1 && n[0] == 109u8 {
            assert(n =~= t[11]);
        }
        if n.len() == 1 && n[0] == 108u8 {
            assert(n =~= t[12]);
        }
        if n.len() == 1 && n[0] == 99u8 {
            assert(n =~= t[13]);
        }
        if n.len() == 1 && n[0] == 118u8 {
            assert(n =~= t[14]);
        }
        if n.len() == 2 && n[0] == 114u8 && n[1] == 101u8 {
            assert(n =~= t[15]);
        }
        if n.len() == 1 && n[0] == 121u8 {
            assert(n =~= t[16]);
        }
        if n.len() == 1 && n[0] == 104u8 {
            assert(n =~= t[17]);
        }
        if n.len() == 1 && n[0] == 115u8 {
            assert(n =~= t[18]);
        }
        if n.len() == 1 && n[0] == 70u8 {
            assert(n =~= t[19]);
        }
        if n.len() == 2 && n[0] == 102u8 && n[1] == 42u8 {
            assert(n =~= t[20]);
        }
        if n.len() == 1 && n[0] == 66u8 {
            assert(n =~= t[21]);
        }
        if n.len() == 2 && n[0] == 66u8 && n[1] == 42u8 {
            assert(n =~= t[22]);
        }
        if n.len() == 1 && n[0] == 98u8 {
            assert(n =~= t[23]);
        }
        if n.len() == 2 && n[0] == 98u8 && n[1] == 42u8 {
            assert(n =~= t[24]);
        }
        if n.len() == 1 && n[0] == 110u8 {
            assert(n =~= t[25]);
        }
        if n.len() == 1 && n[0] == 83u8 {
            assert(n =~= t[26]);
        }
        if n.len() == 1 && n[0] == 102u8 {
            assert(n =~= t[27]);
        }
        if n.len() == 1 && n[0] == 87u8 {
            assert(n =~= t[28]);
        }
        if n.len() == 2 && n[0] == 87u8 && n[1] == 42u8 {
            assert(n =~= t[29]);
        }
        if n.len() == 2 && n[0] == 66u8 && n[1] == 84u8 {
            assert(n =~= t[30]);
        }
        if n.len() == 2 && n[0] == 69u8 && n[1] == 84u8 {
            assert(n =~= t[31]);
        }
        if n.len() == 2 && n[0] == 84u8 && n[1] == 99u8 {
            assert(n =~= t[32]);
        }
        if n.len() == 2 && n[0] == 84u8 && n[1] == 119u8 {
            assert(n =~= t[33]);
        }
        if n.len() == 2 && n[0] == 84u8 && n[1] == 122u8 {
            assert(n =~= t[34]);
        }
        if n.len() == 2 && n[0] == 84u8 && n[1] == 76u8 {
            assert(n =~= t[35]);
        }
        if n.len() == 2 && n[0] == 84u8 && n[1] == 102u8 {
            assert(n =~= t[36]);
        }
        if n.len() == 2 && n[0] == 84u8 && n[1] == 114u8 {
            assert(n =~= t[37]);
        }
        if n.len() == 2 && n[0] == 84u8 && n[1] == 115u8 {
            assert(n =~= t[38]);
        }
        if n.len() == 2 && n[0] == 84u8 && n[1] == 100u8 {
            assert(n =~= t[39]);
        }
        if n.len() == 2 && n[0] == 84u8 && n[1] == 68u8 {
            assert(n =~= t[40]);
        }
        if n.len() == 2 && n[0] == 84u8 && n[1] == 109u8 {
            assert(n =~= t[41]);
        }
        if n.len() == 2 && n[0] == 84u8 && n[1] == 42u8 {
            assert(n =~= t[42]);
        }
        if n.len() == 2 && n[0] == 84u8 && n[1] == 106u8 {
            assert(n =~= t[43]);
        }
        if n.len() == 1 && n[0] == 39u8 {
            assert(n =~= t[44]);
        }
        if n.len() == 1 && n[0] == 34u8 {
            assert(n =~= t[45]);
        }
        if n.len() == 2 && n[0] == 84u8 && n[1] == 74u8 {
            assert(n =~= t[46]);
        }
        if n.len() == 2 && n[0] == 100u8 && n[1] == 48u8 {
            assert(n =~= t[47]);
        }
        if n.len() == 2 && n[0] == 100u8 && n[1] == 49u8 {
            assert(n =~= t[48]);
        }
        if n.len() == 2 && n[0] == 99u8 && n[1] == 115u8 {
            assert(n =~= t[49]);
        }
        if n.len() == 2 && n[0] == 67u8 && n[1] == 83u8 {
            assert(n =~= t[50]);
        }
        if n.len() == 2 && n[0] == 115u8 && n[1] == 99u8 {
            assert(n =~= t[51]);
        }
        if n.len() == 2 && n[0] == 83u8 && n[1] == 67u8 {
            assert(n =~= t[52]);
        }
        if n.len() == 3 && n[0] == 115u8 && n[1] == 99u8 && n[2] == 110u8 {
            assert(n =~= t[53]);
        }
        if n.len() == 3 && n[0] == 83u8 && n[1] == 67u8 && n[2] == 78u8 {
            assert(n =~= t[54]);
        }
        if n.len() == 1 && n[0] == 103u8 {
            assert(n =~= t[55]);
        }
        if n.len() == 1 && n[0] == 71u8 {
            assert(n =~= t[56]);
        }
        if n.len() == 2 && n[0] == 114u8 && n[1] == 103u8 {
            assert(n =~= t[57]);
        }
        if n.len() == 2 && n[0] == 82u8 && n[1] == 71u8 {
            assert(n =~= t[58]);
        }
        if n.len() == 1 && n[0] == 107u8 {
            assert(n =~= t[59]);
        }
        if n.len() == 1 && n[0] == 75u8 {
            assert(n =~= t[60]);
        }
        if n.len() == 2 && n[0] == 115u8 && n[1] == 104u8 {
            assert(n =~= t[61]);
        }
        if n.len() == 2 && n[0] == 66u8 && n[1] == 73u8 {
            assert(n =~= t[62]);
        }
        if n.len() == 2 && n[0] == 73u8 && n[1] == 68u8 {
            assert(n =~= t[63]);
        }
        if n.len() == 2 && n[0] == 69u8 && n[1] == 73u8 {
            assert(n =~= t[64]);
        }
        if n.len() == 2 && n[0] == 68u8 && n[1] == 111u8 {
            assert(n =~= t[65]);
        }
        if n.len() == 2 && n[0] == 77u8 && n[1] == 80u8 {
            assert(n =~= t[66]);
        }
        if n.len() == 2 && n[0] == 68u8 && n[1] == 80u8 {
            assert(n =~= t[67]);
        }
        if n.len() == 3 && n[0] == 66u8 && n[1] == 77u8 && n[2] == 67u8 {
            assert(n =~= t[68]);
        }
        if n.len() == 3 && n[0] == 66u8 && n[1] == 68u8 && n[2] == 67u8 {
            assert(n =~= t[69]);
        }
        if n.len() == 3 && n[0] == 69u8 && n[1] == 77u8 && n[2] == 67u8 {
            assert(n =~= t[70]);
        }
        if n.len() == 2 && n[0] == 66u8 && n[1] == 88u8 {
            assert(n =~= t[71]);
        }
        if n.len() == 2 && n[0] == 69u8 && n[1] == 88u8 {
            assert(n =~= t[72]);
        }
    }
}

/// An operator of the table is a word of its own that is no number, `R`,
/// `stream` or name.
proof fn lemma_operator_word(n: Seq<u8>)
    requires
        content_operators().contains(n),
    ensures
        n.len() > 0,
        word_bytes(n),
        !spec_is_number_token(n),
        n != kw_r(),
        n != kw_stream(),
        n[0] != 47u8,
{
    law_operators_are_the_table(n);
    assert(spec_is_op(n));
    assert(n.len() == 1 || n.len() == 2 || n.len() == 3);
    assert forall|i: int| 0 <= i < n.len() implies !crate::parser::character::spec_is_delimiter(#[trigger] n[i])
        && !crate::parser::character::spec_is_white_space(n[i]) by {
        assert(n[i] == 42u8 || n[i] == 39u8 || n[i] == 34u8 || n[i] == 48u8 || n[i] == 49u8 || (65u8 <= n[i]
            <= 90u8) || (97u8 <= n[i] <= 122u8));
    }
    assert(n[0] == 39u8 || n[0] == 34u8 || (65u8 <= n[0] <= 90u8) || (97u8 <= n[0] <= 122u8));
    assert(crate::objects::strip_sign(n) == (1int, n));
    assert(crate::objects::digit_prefix_len(n) == 0);
    assert(n != kw_r()) by {
        if n =~= kw_r() {
            assert(n.len() == 1 && n[0] == 82u8);
        }
    }
}

/// An operator of the table after a name operand, as in `/Im1 Do`, is read
/// as that operator with the name as its operand.
#[verifier::rlimit(40)]
pub proof fn law_operator_with_name_operand(
    k: Seq<u8>,
    n: Seq<u8>,
    rest: Seq<u8>,
    mode: ParseMode,
    x: Option<Seq<ObjectInfo>>,
)
    requires
        plain_name(k),
        content_operators().contains(n),
        n != kw_bi(),
        valid_utf8(n),
    ensures
        spec_read_operator(seq![47u8] + k + seq![32u8] + n + seq![10u8] + rest, 0, mode, x, Seq::empty())
            == (
            (2 + k.len() + n.len()) as int,
            Ok::<Option<(Seq<char>, Seq<Obj>)>, PdfError>(Some((decode_utf8(n), seq![Obj::Name(k)]))),
        ),
{
    let d = seq![47u8] + k + seq![32u8] + n + seq![10u8] + rest;
    let e: int = (1 + k.len()) as int;
    let o = Obj::Name(k);
    lemma_operator_word(n);
    law_operators_are_the_table(n);
    assert(obj_bytes(o) == seq![47u8] + k);
    assert(d.subrange(0, e) =~= seq![47u8] + k);
    assert(written_at(d, 0, o));
    assert(d[e] == 32u8);
    assert(d.subrange(e + 1, e + 1 + n.len()) =~= n);
    assert(d[e + 1 + n.len()] == 10u8);
    lemma_word_at(d, e + 1, n);
    lemma_next_word_skips_space(d, e);
    assert(ok_after(d, e));
    lemma_read_atom(d, 0, o, mode, x);
    lemma_object_at(d, 0, mode, x);
    assert forall|i: int| 1 <= i < e implies !crate::parser::character::spec_is_delimiter(#[trigger] d[i])
        && !crate::parser::character::spec_is_white_space(d[i]) by {
        assert(d[i] == k[i - 1]);
    }
    crate::round_trip::lemma_scan_to(d, 1, e);
    assert(crate::parser::syntax_spec::skip_ws(d, 0, false) == Some(0int));
    let raw = d.subrange(0, e);
    assert(spec_next_word(d, 0) == (e, Ok::<(Seq<u8>, bool), PdfError>((raw, false))));
    assert(raw[0] == 47u8);
    assert(!spec_is_op(raw));
    assert(Seq::<Obj>::empty().push(o) =~= seq![o]);
    assert(crate::page::content_parser::object_at(d, 0, mode, x) == (e, Ok::<Obj, PdfError>(o)));
    assert(spec_next_word(d, e) == (e + 1 + n.len(), Ok::<(Seq<u8>, bool), PdfError>((n, false))));
    assert(spec_read_operator(d, e, mode, x, seq![o]) == (
        e + 1 + n.len(),
        Ok::<Option<(Seq<char>, Seq<Obj>)>, PdfError>(Some((decode_utf8(n), seq![o]))),
    ));
    assert(spec_read_operator(d, 0, mode, x, Seq::empty()) == spec_read_operator(d, e, mode, x, seq![o]));
}

} // verus!
