use vstd::prelude::*;
use crate::document::PdfDocument;
use crate::error::{PdfError, PdfResult};
use crate::objects::{
    Obj, ObjectId, PdfArray, PdfDict, PdfName, PdfNumber, PdfObject, PdfStream, PdfString, bytes_eq,
    decimal_digits, dict_find, dict_insert, entries_view, items_view, lemma_dict_find_from,
    lemma_entries_view, lemma_items_view, u64_to_decimal,
};
use crate::parser::syntax_spec::str_body;
use crate::pdf_context::{PDFContext, id_lt, ids_sorted};

verus! {

// ---------------------------------------------------------------- bytes of objects

/// `null`
pub open spec fn kw_null_out() -> Seq<u8> {
    seq![110u8, 117u8, 108u8, 108u8]
}

/// `true`
pub open spec fn kw_true_out() -> Seq<u8> {
    seq![116u8, 114u8, 117u8, 101u8]
}

/// `false`
pub open spec fn kw_false_out() -> Seq<u8> {
    seq![102u8, 97u8, 108u8, 115u8, 101u8]
}

/// `Length`
pub open spec fn key_length() -> Seq<u8> {
    seq![76u8, 101u8, 110u8, 103u8, 116u8, 104u8]
}

/// `\nstream\n`
pub open spec fn stream_open() -> Seq<u8> {
    seq![10u8, 115u8, 116u8, 114u8, 101u8, 97u8, 109u8, 10u8]
}

/// `\nendstream`
pub open spec fn stream_close() -> Seq<u8> {
    seq![10u8, 101u8, 110u8, 100u8, 115u8, 116u8, 114u8, 101u8, 97u8, 109u8]
}

/// How a byte of a string is written between parentheses: the parentheses
/// and the backslash are escaped, and so are the line feed, carriage return,
/// tab, backspace and form feed, by their letters.
pub open spec fn escaped_byte(b: u8) -> Seq<u8> {
    if b == 40u8 || b == 41u8 || b == 92u8 {
        seq![92u8, b]
    } else if b == 10u8 {
        seq![92u8, 110u8]
    } else if b == 13u8 {
        seq![92u8, 114u8]
    } else if b == 9u8 {
        seq![92u8, 116u8]
    } else if b == 8u8 {
        seq![92u8, 98u8]
    } else if b == 12u8 {
        seq![92u8, 102u8]
    } else {
        seq![b]
    }
}

/// The bytes of a string, each escaped.
pub open spec fn escaped_bytes(s: Seq<u8>) -> Seq<u8>
    decreases s.len(),
{
    if s.len() == 0 {
        Seq::empty()
    } else {
        escaped_bytes(s.drop_last()) + escaped_byte(s.last())
    }
}

/// One dictionary entry: a new line, the key as a name, a space, the value.
pub open spec fn entry_bytes(k: Seq<u8>, v: Seq<u8>) -> Seq<u8> {
    seq![10u8, 47u8] + k + seq![32u8] + v
}

/// How an object is written.
pub open spec fn obj_bytes(o: Obj) -> Seq<u8>
    decreases o, 0nat,
{
    match o {
        Obj::Null => kw_null_out(),
        Obj::Bool(b) => if b {
            kw_true_out()
        } else {
            kw_false_out()
        },
        Obj::Number(lex) => lex,
        Obj::Str(s, _) => seq![40u8] + escaped_bytes(s) + seq![41u8],
        Obj::Name(n) => seq![47u8] + n,
        Obj::Array(items) => seq![91u8] + items_bytes(items) + seq![93u8],
        Obj::Dict(es) => seq![60u8, 60u8] + entries_bytes(es) + seq![10u8, 62u8, 62u8],
        Obj::Stream(es, data) => seq![60u8, 60u8] + stream_entries_bytes(
            es,
            decimal_digits(data.len()),
        ) + seq![10u8, 62u8, 62u8] + stream_open() + data + stream_close(),
        Obj::Ref(n, g) => decimal_digits(n as nat) + seq![32u8] + decimal_digits(g as nat) + seq![
            32u8,
            82u8,
        ],
    }
}

/// The items of an array, separated by spaces.
pub open spec fn items_bytes(items: Seq<Obj>) -> Seq<u8>
    decreases items, 0nat,
{
    if items.len() == 0 {
        Seq::empty()
    } else if items.len() == 1 {
        obj_bytes(items[0])
    } else {
        items_bytes(items.drop_last()) + seq![32u8] + obj_bytes(items[items.len() - 1])
    }
}

/// The entries of a dictionary.
pub open spec fn entries_bytes(es: Seq<(Seq<u8>, Obj)>) -> Seq<u8>
    decreases es, 0nat,
{
    if es.len() == 0 {
        Seq::empty()
    } else {
        entries_bytes(es.drop_last()) + entry_bytes(
            es[es.len() - 1].0,
            obj_bytes(es[es.len() - 1].1),
        )
    }
}

/// The entries of a stream's dictionary with `Length` set to the digits `len`:
/// the first `Length` entry gets them, or an entry is added at the end.
pub open spec fn stream_entries_bytes(es: Seq<(Seq<u8>, Obj)>, len: Seq<u8>) -> Seq<u8>
    decreases es, 1nat,
{
    match dict_find(es, key_length()) {
        Some(i) => if 0 <= i < es.len() {
            entries_bytes(es.take(i)) + entry_bytes(key_length(), len) + entries_bytes(
                es.skip(i + 1),
            )
        } else {
            Seq::empty()
        },
        None => entries_bytes(es) + entry_bytes(key_length(), len),
    }
}

// ---------------------------------------------------------------- reading strings back

/// Escaping a concatenation escapes each part.
pub proof fn lemma_escaped_concat(a: Seq<u8>, b: Seq<u8>)
    ensures
        escaped_bytes(a + b) == escaped_bytes(a) + escaped_bytes(b),
    decreases b.len(),
{
    if b.len() == 0 {
        assert(a + b =~= a);
        assert(escaped_bytes(b) =~= Seq::<u8>::empty());
    } else {
        lemma_escaped_concat(a, b.drop_last());
        assert((a + b).drop_last() =~= a + b.drop_last());
        assert((a + b).last() == b.last());
    }
}

/// Reading the escaped bytes of `s` as the body of a literal string, from the
/// escape of its byte `k` on, gives the rest of `s`, and stops after the `)`.
pub proof fn lemma_read_escaped(pre: Seq<u8>, s: Seq<u8>, rest: Seq<u8>, k: int)
    requires
        0 <= k <= s.len(),
    ensures
        str_body(
            pre + escaped_bytes(s) + seq![41u8] + rest,
            (pre.len() + escaped_bytes(s.take(k)).len()) as int,
            0,
            s.take(k),
        ) == ((pre.len() + escaped_bytes(s).len() + 1) as int, Ok::<Seq<u8>, PdfError>(s)),
    decreases s.len() - k,
{
    let d = pre + escaped_bytes(s) + seq![41u8] + rest;
    let p = (pre.len() + escaped_bytes(s.take(k)).len()) as int;
    assert(s.take(k) + s.skip(k) =~= s);
    lemma_escaped_concat(s.take(k), s.skip(k));
    if k == s.len() {
        assert(s.take(k) =~= s);
        assert(d[p] == 41u8);
    } else {
        let b = s[k];
        assert(s.take(k + 1).drop_last() =~= s.take(k));
        assert(s.take(k + 1).last() == b);
        let e = escaped_byte(b);
        assert(escaped_bytes(s.take(k + 1)) == escaped_bytes(s.take(k)) + e);
        assert(s.take(k + 1) + s.skip(k + 1) =~= s);
        lemma_escaped_concat(s.take(k + 1), s.skip(k + 1));
        assert(escaped_bytes(s) == escaped_bytes(s.take(k)) + e + escaped_bytes(s.skip(k + 1)));
        assert forall|i: int| 0 <= i < e.len() implies #[trigger] d[p + i] == e[i] by {
            assert(d[p + i] == escaped_bytes(s)[escaped_bytes(s.take(k)).len() + i]);
        }
        assert(p + e.len() <= d.len());
        lemma_read_escaped(pre, s, rest, k + 1);
        assert(s.take(k).push(b) =~= s.take(k + 1));
        if b == 40u8 || b == 41u8 || b == 92u8 {
            assert(d[p] == 92u8 && d[p + 1] == b);
        } else if b == 10u8 || b == 13u8 || b == 9u8 || b == 8u8 || b == 12u8 {
            assert(d[p] == 92u8);
        } else {
            assert(d[p] == b);
        }
    }
}

// ---------------------------------------------------------------- writing

/// Appends bytes.
pub fn append(output: &mut Vec<u8>, s: &[u8])
    ensures
        final(output)@ == old(output)@ + s@,
{
    let mut i: usize = 0;
    while i < s.len()
        invariant
            0 <= i <= s@.len(),
            output@ == old(output)@ + s@.take(i as int),
        decreases s.len() - i,
    {
        output.push(s[i]);
        i = i + 1;
        assert(s@.take(i as int) =~= s@.take(i - 1).push(s@[i - 1]));
    }
    assert(s@.take(s@.len() as int) =~= s@);
}

/// A number is written as its lexeme.
fn format_number(number: &PdfNumber) -> (r: Vec<u8>)
    ensures
        r@ == number.lexeme@,
{
    crate::objects::copy_bytes(number.lexeme())
}

fn write_name(output: &mut Vec<u8>, name: &PdfName)
    ensures
        final(output)@ == old(output)@ + seq![47u8] + name.bytes@,
{
    output.push(47u8);
    append(output, name.name());
}

fn write_string(output: &mut Vec<u8>, string: &PdfString)
    ensures
        final(output)@ == old(output)@ + seq![40u8] + escaped_bytes(string.bytes@) + seq![41u8],
{
    output.push(40u8);
    let ghost start = output@;
    let bytes = string.bytes();
    let mut i: usize = 0;
    while i < bytes.len()
        invariant
            0 <= i <= bytes@.len(),
            bytes@ == string.bytes@,
            output@ == start + escaped_bytes(bytes@.take(i as int)),
        decreases bytes.len() - i,
    {
        let b = bytes[i];
        proof {
            assert(bytes@.take(i + 1).drop_last() =~= bytes@.take(i as int));
            assert(bytes@.take(i + 1).last() == b);
        }
        if b == 40u8 || b == 41u8 || b == 92u8 {
            output.push(92u8);
            output.push(b);
        } else if b == 10u8 {
            output.push(92u8);
            output.push(110u8);
        } else if b == 13u8 {
            output.push(92u8);
            output.push(114u8);
        } else if b == 9u8 {
            output.push(92u8);
            output.push(116u8);
        } else if b == 8u8 {
            output.push(92u8);
            output.push(98u8);
        } else if b == 12u8 {
            output.push(92u8);
            output.push(102u8);
        } else {
            output.push(b);
        }
        i = i + 1;
        assert(output@ =~= start + escaped_bytes(bytes@.take(i as int)));
    }
    assert(bytes@.take(bytes@.len() as int) =~= bytes@);
    output.push(41u8);
}

/// Writes an object.
fn write_object(output: &mut Vec<u8>, obj: &PdfObject)
    ensures
        final(output)@ == old(output)@ + obj_bytes(obj@),
    decreases obj, 0nat,
{
    match obj {
        PdfObject::PdfNull => {
            let b: [u8; 4] = [110u8, 117u8, 108u8, 108u8];
            assert(b@ =~= kw_null_out());
            append(output, &b);
        },
        PdfObject::PdfNumber(number) => {
            let digits = format_number(number);
            append(output, digits.as_slice());
        },
        PdfObject::PdfBool(value) => {
            if value.value() {
                let b: [u8; 4] = [116u8, 114u8, 117u8, 101u8];
                assert(b@ =~= kw_true_out());
                append(output, &b);
            } else {
                let b: [u8; 5] = [102u8, 97u8, 108u8, 115u8, 101u8];
                assert(b@ =~= kw_false_out());
                append(output, &b);
            }
        },
        PdfObject::PdfName(name) => {
            write_name(output, name);
            assert(output@ =~= old(output)@ + obj_bytes(obj@));
        },
        PdfObject::PdfString(string) => {
            write_string(output, string);
            assert(output@ =~= old(output)@ + obj_bytes(obj@));
        },
        PdfObject::PdfArray(array) => {
            write_array(output, array);
            assert(output@ =~= old(output)@ + obj_bytes(obj@));
        },
        PdfObject::PdfDict(dict) => {
            write_dict(output, dict);
            assert(output@ =~= old(output)@ + obj_bytes(obj@));
        },
        PdfObject::PdfStream(stream) => {
            write_stream(output, stream);
            assert(output@ =~= old(output)@ + obj_bytes(obj@));
        },
        PdfObject::PdfReference(reference) => {
            let n = u64_to_decimal(reference.objnum() as u64);
            let g = u64_to_decimal(reference.gennum() as u64);
            append(output, n.as_slice());
            output.push(32u8);
            append(output, g.as_slice());
            output.push(32u8);
            output.push(82u8);
            assert(output@ =~= old(output)@ + obj_bytes(obj@));
        },
    }
}

/// Writes an array: its items between brackets, separated by spaces.
fn write_array(output: &mut Vec<u8>, array: &PdfArray)
    ensures
        final(output)@ == old(output)@ + seq![91u8] + items_bytes(array@) + seq![93u8],
    decreases array, 0nat,
{
    output.push(91u8);
    let ghost start = output@;
    proof {
        lemma_items_view(array.items@);
    }
    let mut i: usize = 0;
    while i < array.items.len()
        invariant
            0 <= i <= array.items@.len(),
            items_view(array.items@).len() == array.items@.len(),
            forall|j: int|
                0 <= j < array.items@.len() ==> #[trigger] items_view(array.items@)[j]
                    == array.items@[j]@,
            output@ == start + items_bytes(items_view(array.items@).take(i as int)),
        decreases array.items.len() - i,
    {
        proof {
            assert(decreases_to!(array => array.items));
            vstd::std_specs::vec::axiom_vec_index_decreases(array.items, i as int);
        }
        let ghost v = items_view(array.items@);
        proof {
            assert(v.take(i + 1).drop_last() =~= v.take(i as int));
            assert(v.take(i + 1)[i as int] == array.items@[i as int]@);
        }
        if i > 0 {
            output.push(32u8);
        }
        write_object(output, &array.items[i]);
        i = i + 1;
        proof {
            if i == 1 {
                assert(v.take(1) =~= seq![v[0]]);
            }
            assert(output@ =~= start + items_bytes(v.take(i as int)));
        }
    }
    assert(items_view(array.items@).take(i as int) =~= array@);
    output.push(93u8);
}

/// Writes the entries `from..to` of a dictionary, each on a new line.
fn write_entries(output: &mut Vec<u8>, dict: &PdfDict, from: usize, to: usize)
    requires
        from <= to <= dict@.len(),
    ensures
        final(output)@ == old(output)@ + entries_bytes(dict@.subrange(from as int, to as int)),
    decreases dict, 0nat,
{
    let ghost start = output@;
    proof {
        lemma_entries_view(dict.entries@);
    }
    let mut i: usize = from;
    assert(dict@.subrange(from as int, from as int) =~= Seq::<(Seq<u8>, Obj)>::empty());
    while i < to
        invariant
            from <= i <= to,
            to <= dict.entries@.len(),
            entries_view(dict.entries@) == dict@,
            dict@.len() == dict.entries@.len(),
            forall|j: int|
                0 <= j < dict.entries@.len() ==> #[trigger] dict@[j] == (
                    dict.entries@[j].key@,
                    dict.entries@[j].value@,
                ),
            output@ == start + entries_bytes(dict@.subrange(from as int, i as int)),
        decreases to - i,
    {
        proof {
            assert(decreases_to!(dict => dict.entries));
            vstd::std_specs::vec::axiom_vec_index_decreases(dict.entries, i as int);
            assert(decreases_to!(dict.entries[i as int] => dict.entries[i as int].value));
        }
        let ghost v = dict@.subrange(from as int, i + 1);
        proof {
            assert(v.drop_last() =~= dict@.subrange(from as int, i as int));
            assert(v[v.len() - 1] == dict@[i as int]);
        }
        output.push(10u8);
        output.push(47u8);
        append(output, dict.entries[i].key.as_slice());
        output.push(32u8);
        write_object(output, &dict.entries[i].value);
        i = i + 1;
        proof {
            assert(output@ =~= start + entries_bytes(v));
        }
    }
}

/// Writes a dictionary: its entries, each on a new line, between `<<` and `>>`.
fn write_dict(output: &mut Vec<u8>, dict: &PdfDict)
    ensures
        final(output)@ == old(output)@ + seq![60u8, 60u8] + entries_bytes(dict@) + seq![
            10u8,
            62u8,
            62u8,
        ],
    decreases dict, 1nat,
{
    output.push(60u8);
    output.push(60u8);
    let n = dict.len();
    write_entries(output, dict, 0, n);
    assert(dict@.subrange(0, n as int) =~= dict@);
    output.push(10u8);
    output.push(62u8);
    output.push(62u8);
}

/// Writes the entries of a stream's dictionary with `Length` set to `digits`.
#[verifier::spinoff_prover]
fn write_stream_entries(output: &mut Vec<u8>, dict: &PdfDict, digits: &[u8])
    ensures
        final(output)@ == old(output)@ + stream_entries_bytes(dict@, digits@),
    decreases dict, 1nat,
{
    let key: [u8; 6] = [76u8, 101u8, 110u8, 103u8, 116u8, 104u8];
    assert(key@ =~= key_length());
    let n = dict.len();
    proof {
        lemma_dict_find_from(dict@, key_length(), 0);
    }
    match dict.find(&key) {
        Some(i) => {
            write_entries(output, dict, 0, i);
            let ghost mid = output@;
            output.push(10u8);
            output.push(47u8);
            append(output, &key);
            output.push(32u8);
            append(output, digits);
            assert(output@ =~= mid + entry_bytes(key_length(), digits@));
            write_entries(output, dict, i + 1, n);
            proof {
                assert(dict@.take(i as int) =~= dict@.subrange(0, i as int));
                assert(dict@.skip(i + 1) =~= dict@.subrange(i + 1, n as int));
            }
        },
        None => {
            write_entries(output, dict, 0, n);
            let ghost mid = output@;
            output.push(10u8);
            output.push(47u8);
            append(output, &key);
            output.push(32u8);
            append(output, digits);
            assert(output@ =~= mid + entry_bytes(key_length(), digits@));
            proof {
                assert(dict@.subrange(0, n as int) =~= dict@);
            }
        },
    }
}

/// Writes a stream: its dictionary with `Length` set to the number of its
/// bytes, then its bytes between `stream` and `endstream`.
#[verifier::spinoff_prover]
fn write_stream(output: &mut Vec<u8>, stream: &PdfStream)
    ensures
        final(output)@ == old(output)@ + obj_bytes(Obj::Stream(stream.dict@, stream.data@)),
    decreases stream, 0nat,
{
    let len = stream.data.len();
    let digits = u64_to_decimal(len as u64);
    output.push(60u8);
    output.push(60u8);
    let ghost a = output@;
    write_stream_entries(output, &stream.dict, digits.as_slice());
    let ghost b = output@;
    output.push(10u8);
    output.push(62u8);
    output.push(62u8);
    let open: [u8; 8] = [10u8, 115u8, 116u8, 114u8, 101u8, 97u8, 109u8, 10u8];
    let close: [u8; 10] = [10u8, 101u8, 110u8, 100u8, 115u8, 116u8, 114u8, 101u8, 97u8, 109u8];
    assert(open@ =~= stream_open());
    assert(close@ =~= stream_close());
    append(output, &open);
    append(output, stream.data.as_slice());
    append(output, &close);
    let ghost es = stream.dict@;
    let ghost data = stream.data@;
    assert(obj_bytes(Obj::Stream(es, data)) == seq![60u8, 60u8] + stream_entries_bytes(
        es,
        decimal_digits(data.len()),
    ) + seq![10u8, 62u8, 62u8] + stream_open() + data + stream_close());
    assert(output@ =~= old(output)@ + obj_bytes(Obj::Stream(es, data)));
}

// ---------------------------------------------------------------- documents

/// `%PDF-1.7\n`
pub open spec fn header_out() -> Seq<u8> {
    seq![37u8, 80u8, 68u8, 70u8, 45u8, 49u8, 46u8, 55u8, 10u8]
}

/// ` obj\n`
pub open spec fn obj_open() -> Seq<u8> {
    seq![32u8, 111u8, 98u8, 106u8, 10u8]
}

/// `\nendobj\n`
pub open spec fn obj_close() -> Seq<u8> {
    seq![10u8, 101u8, 110u8, 100u8, 111u8, 98u8, 106u8, 10u8]
}

/// How an indirect object is written: `n g obj`, the object, `endobj`.
pub open spec fn indirect_bytes(id: ObjectId, o: Obj) -> Seq<u8> {
    decimal_digits(id.obj_num as nat) + seq![32u8] + decimal_digits(id.gen_num as nat) + obj_open()
        + obj_bytes(o) + obj_close()
}

/// The objects written one after the other; a deleted object writes nothing.
pub open spec fn body_bytes(items: Seq<(ObjectId, Option<Obj>)>) -> Seq<u8>
    decreases items.len(),
{
    if items.len() == 0 {
        Seq::empty()
    } else {
        body_bytes(items.drop_last()) + match items.last().1 {
            Some(o) => indirect_bytes(items.last().0, o),
            None => Seq::empty(),
        }
    }
}

/// An xref row: offset, generation and `n` or `f`.
pub type XrefRow = (u64, u32, u8);

/// The rows of the written xref table: free rows, the first one with
/// generation 65535, and a row in use for each object written, with its offset.
pub open spec fn xref_rows(items: Seq<(ObjectId, Option<Obj>)>, size: nat) -> Seq<XrefRow>
    decreases items.len(),
{
    if items.len() == 0 {
        Seq::new(size, |i: int| if i == 0 {
            (0u64, 65535u32, 102u8)
        } else {
            (0u64, 0u32, 102u8)
        })
    } else {
        let prev = xref_rows(items.drop_last(), size);
        let id = items.last().0;
        match items.last().1 {
            Some(_) => prev.update(
                id.obj_num as int,
                (
                    (header_out().len() + body_bytes(items.drop_last()).len()) as u64,
                    id.gen_num,
                    110u8,
                ),
            ),
            None => prev,
        }
    }
}

pub proof fn lemma_xref_rows_len(items: Seq<(ObjectId, Option<Obj>)>, size: nat)
    requires
        forall|j: int| 0 <= j < items.len() ==> #[trigger] items[j].0.obj_num < size,
    ensures
        xref_rows(items, size).len() == size,
    decreases items.len(),
{
    if items.len() > 0 {
        assert forall|j: int| 0 <= j < items.drop_last().len() implies #[trigger] items.drop_last()[j].0.obj_num < size by {
            assert(items.drop_last()[j] == items[j]);
        }
        lemma_xref_rows_len(items.drop_last(), size);
        assert(items[items.len() - 1].0.obj_num < size);
    }
}

/// The decimal digits of `v`, with zeros in front up to `width` digits.
pub open spec fn padded(v: nat, width: nat) -> Seq<u8> {
    let d = decimal_digits(v);
    if d.len() < width {
        Seq::new((width - d.len()) as nat, |i: int| 48u8) + d
    } else {
        d
    }
}

/// One row: `oooooooooo ggggg s \n`.
pub open spec fn row_bytes(row: XrefRow) -> Seq<u8> {
    padded(row.0 as nat, 10) + seq![32u8] + padded(row.1 as nat, 5) + seq![32u8, row.2, 32u8, 10u8]
}

pub open spec fn rows_bytes(rows: Seq<XrefRow>) -> Seq<u8>
    decreases rows.len(),
{
    if rows.len() == 0 {
        Seq::empty()
    } else {
        rows_bytes(rows.drop_last()) + row_bytes(rows.last())
    }
}

/// The xref table: `xref`, the subsection `0 n`, and the rows.
pub open spec fn xref_table_bytes(rows: Seq<XrefRow>) -> Seq<u8> {
    seq![120u8, 114u8, 101u8, 102u8, 10u8, 48u8, 32u8] + decimal_digits(rows.len()) + seq![10u8]
        + rows_bytes(rows)
}

/// The trailer keys that a written trailer leaves out.
pub open spec fn dropped_key(k: Seq<u8>) -> bool {
    ||| k == seq![80u8, 114u8, 101u8, 118u8]
    ||| k == seq![88u8, 82u8, 101u8, 102u8, 83u8, 116u8, 109u8]
    ||| k == seq![84u8, 121u8, 112u8, 101u8]
    ||| k == seq![87u8]
    ||| k == seq![73u8, 110u8, 100u8, 101u8, 120u8]
    ||| k == seq![70u8, 105u8, 108u8, 116u8, 101u8, 114u8]
    ||| k == seq![68u8, 101u8, 99u8, 111u8, 100u8, 101u8, 80u8, 97u8, 114u8, 109u8, 115u8]
    ||| k == key_length()
}

/// The entries of the trailer that are kept, inserted in order.
pub open spec fn kept_entries(t: Seq<(Seq<u8>, Obj)>) -> Seq<(Seq<u8>, Obj)>
    decreases t.len(),
{
    if t.len() == 0 {
        Seq::empty()
    } else {
        let prev = kept_entries(t.drop_last());
        let (k, v) = t.last();
        if dropped_key(k) {
            prev
        } else {
            dict_insert(prev, k, v)
        }
    }
}

/// `Size`
pub open spec fn key_size_out() -> Seq<u8> {
    seq![83u8, 105u8, 122u8, 101u8]
}

/// The written trailer: the kept entries, with `Size` set.
pub open spec fn trailer_out(t: Seq<(Seq<u8>, Obj)>, size: nat) -> Seq<(Seq<u8>, Obj)> {
    dict_insert(kept_entries(t), key_size_out(), Obj::Number(decimal_digits(size)))
}

/// `trailer\n`, the trailer and a new line.
pub open spec fn trailer_bytes(t: Seq<(Seq<u8>, Obj)>, size: nat) -> Seq<u8> {
    seq![116u8, 114u8, 97u8, 105u8, 108u8, 101u8, 114u8, 10u8] + obj_bytes(
        Obj::Dict(trailer_out(t, size)),
    ) + seq![10u8]
}

/// `startxref\n`
pub open spec fn startxref_out() -> Seq<u8> {
    seq![115u8, 116u8, 97u8, 114u8, 116u8, 120u8, 114u8, 101u8, 102u8, 10u8]
}

/// `%%EOF\n`
pub open spec fn eof_out() -> Seq<u8> {
    seq![37u8, 37u8, 69u8, 79u8, 70u8, 10u8]
}

/// The number of rows: one more than the largest object number written.
pub open spec fn table_size(ids: Seq<ObjectId>) -> nat {
    if ids.len() == 0 {
        1
    } else {
        (ids.last().obj_num + 1) as nat
    }
}

/// A saved document: the header, the objects, the xref table, the trailer,
/// and the offset of the xref table.
pub open spec fn document_bytes(
    items: Seq<(ObjectId, Option<Obj>)>,
    t: Seq<(Seq<u8>, Obj)>,
    size: nat,
) -> Seq<u8> {
    let body = body_bytes(items);
    header_out() + body + xref_table_bytes(xref_rows(items, size)) + trailer_bytes(t, size)
        + startxref_out() + decimal_digits(header_out().len() + body.len()) + seq![10u8]
        + eof_out()
}

/// The objects written first come first.
proof fn lemma_body_prefix(items: Seq<(ObjectId, Option<Obj>)>, m: int)
    requires
        0 <= m <= items.len(),
    ensures
        body_bytes(items.take(m)).len() <= body_bytes(items).len(),
        body_bytes(items).take(body_bytes(items.take(m)).len() as int) == body_bytes(items.take(m)),
    decreases items.len(),
{
    if m == items.len() {
        assert(items.take(m) =~= items);
        assert(body_bytes(items).take(body_bytes(items).len() as int) =~= body_bytes(items));
    } else {
        let front = items.drop_last();
        assert(front.take(m) =~= items.take(m));
        lemma_body_prefix(front, m);
        assert(body_bytes(items).take(body_bytes(items.take(m)).len() as int) =~= body_bytes(
            front,
        ).take(body_bytes(items.take(m)).len() as int));
    }
}

/// Objects written after object `k` leave its row alone when their numbers differ.
proof fn lemma_rows_stable(items: Seq<(ObjectId, Option<Obj>)>, size: nat, k: int, m: int)
    requires
        0 <= k < m <= items.len(),
        forall|i: int| 0 <= i < items.len() ==> #[trigger] items[i].0.obj_num < size,
        forall|i: int, j: int|
            0 <= i < j < items.len() ==> #[trigger] items[i].0.obj_num != #[trigger] items[j].0.obj_num,
    ensures
        xref_rows(items.take(m), size)[items[k].0.obj_num as int] == xref_rows(
            items.take(k + 1),
            size,
        )[items[k].0.obj_num as int],
    decreases m - k,
{
    if m > k + 1 {
        lemma_rows_stable(items, size, k, m - 1);
        let t = items.take(m);
        assert(t.drop_last() =~= items.take(m - 1));
        assert(t.last() == items[m - 1]);
        assert forall|j: int| 0 <= j < t.drop_last().len() implies #[trigger] t.drop_last()[j].0.obj_num
            < size by {
            assert(t.drop_last()[j] == items[j]);
        }
        lemma_xref_rows_len(t.drop_last(), size);
        assert(items[k].0.obj_num != items[m - 1].0.obj_num);
    }
}

/// In a saved document, the row of each object written gives its generation,
/// marks it in use, and gives the offset where the object is written.
pub proof fn law_saved_rows_locate_objects(
    items: Seq<(ObjectId, Option<Obj>)>,
    t: Seq<(Seq<u8>, Obj)>,
    size: nat,
    k: int,
)
    requires
        0 <= k < items.len(),
        items[k].1 is Some,
        forall|i: int| 0 <= i < items.len() ==> #[trigger] items[i].0.obj_num < size,
        forall|i: int, j: int|
            0 <= i < j < items.len() ==> #[trigger] items[i].0.obj_num != #[trigger] items[j].0.obj_num,
        header_out().len() + body_bytes(items).len() <= u64::MAX,
    ensures
        ({
            let row = xref_rows(items, size)[items[k].0.obj_num as int];
            let obj = indirect_bytes(items[k].0, items[k].1->0);
            &&& row.1 == items[k].0.gen_num
            &&& row.2 == 110u8
            &&& row.0 + obj.len() <= document_bytes(items, t, size).len()
            &&& document_bytes(items, t, size).subrange(row.0 as int, row.0 + obj.len()) == obj
        }),
{
    let n = items[k].0.obj_num as int;
    let obj = indirect_bytes(items[k].0, items[k].1->0);
    let before = body_bytes(items.take(k));
    assert(items.take(k + 1).drop_last() =~= items.take(k));
    assert(items.take(k + 1).last() == items[k]);
    assert(body_bytes(items.take(k + 1)) == before + obj);
    assert(items.take(items.len() as int) =~= items);
    if k + 1 < items.len() {
        lemma_rows_stable(items, size, k, items.len() as int);
    }
    lemma_body_prefix(items, k + 1);
    let body = body_bytes(items);
    assert(body.take((before.len() + obj.len()) as int) == before + obj);
    let doc = document_bytes(items, t, size);
    let off: int = (header_out().len() + before.len()) as int;
    assert forall|j: int| 0 <= j < items.take(k).len() implies #[trigger] items.take(k)[j].0.obj_num
        < size by {
        assert(items.take(k)[j] == items[j]);
    }
    lemma_xref_rows_len(items.take(k), size);
    assert(n < size);
    assert(xref_rows(items, size)[n] == xref_rows(items.take(k + 1), size)[n]);
    assert(xref_rows(items.take(k + 1), size)[n] == (off as u64, items[k].0.gen_num, 110u8));
    assert forall|i: int| 0 <= i < obj.len() implies #[trigger] doc.subrange(off, off + obj.len())[i]
        == obj[i] by {
        assert(doc[off + i] == body[before.len() + i]);
        assert(body[before.len() + i] == body.take((before.len() + obj.len()) as int)[before.len() + i]);
    }
    assert(doc.subrange(off, off + obj.len()) =~= obj);
}

/// The objects of a document in the order given, with what each writes.
pub open spec fn write_items(ctx: PDFContext, ids: Seq<ObjectId>) -> Seq<(ObjectId, Option<Obj>)> {
    Seq::new(ids.len(), |i: int| (ids[i], ctx.write_value(ids[i])->Ok_0))
}

/// Writes an indirect object.
fn write_indirect_object(output: &mut Vec<u8>, object_id: ObjectId, obj: &PdfObject)
    ensures
        final(output)@ == old(output)@ + indirect_bytes(object_id, obj@),
{
    let n = u64_to_decimal(object_id.obj_num() as u64);
    let g = u64_to_decimal(object_id.gen_num() as u64);
    append(output, n.as_slice());
    output.push(32u8);
    append(output, g.as_slice());
    let open: [u8; 5] = [32u8, 111u8, 98u8, 106u8, 10u8];
    let close: [u8; 8] = [10u8, 101u8, 110u8, 100u8, 111u8, 98u8, 106u8, 10u8];
    assert(open@ =~= obj_open());
    assert(close@ =~= obj_close());
    append(output, &open);
    write_object(output, obj);
    append(output, &close);
    assert(output@ =~= old(output)@ + indirect_bytes(object_id, obj@));
}

/// Writes `v` in decimal with zeros in front up to `width` digits.
fn push_padded(output: &mut Vec<u8>, v: u64, width: usize)
    ensures
        final(output)@ == old(output)@ + padded(v as nat, width as nat),
{
    let d = u64_to_decimal(v);
    let ghost start = output@;
    if d.len() < width {
        let k = width - d.len();
        let mut i: usize = 0;
        while i < k
            invariant
                0 <= i <= k,
                output@ == start + Seq::new(i as nat, |j: int| 48u8),
            decreases k - i,
        {
            output.push(48u8);
            i = i + 1;
            assert(output@ =~= start + Seq::new(i as nat, |j: int| 48u8));
        }
    }
    append(output, d.as_slice());
    assert(output@ =~= start + padded(v as nat, width as nat));
}

/// Writes the xref table with one subsection from object 0.
fn write_xref_table(output: &mut Vec<u8>, entries: &[XrefRow])
    ensures
        final(output)@ == old(output)@ + xref_table_bytes(entries@),
{
    let head: [u8; 7] = [120u8, 114u8, 101u8, 102u8, 10u8, 48u8, 32u8];
    append(output, &head);
    let count = u64_to_decimal(entries.len() as u64);
    append(output, count.as_slice());
    output.push(10u8);
    let ghost start = output@;
    let mut i: usize = 0;
    while i < entries.len()
        invariant
            0 <= i <= entries@.len(),
            output@ == start + rows_bytes(entries@.take(i as int)),
        decreases entries.len() - i,
    {
        let (offset, gen_num, state) = entries[i];
        proof {
            assert(entries@.take(i + 1).drop_last() =~= entries@.take(i as int));
            assert(entries@.take(i + 1).last() == entries@[i as int]);
        }
        push_padded(output, offset, 10);
        output.push(32u8);
        push_padded(output, gen_num as u64, 5);
        output.push(32u8);
        output.push(state);
        output.push(32u8);
        output.push(10u8);
        i = i + 1;
        assert(output@ =~= start + rows_bytes(entries@.take(i as int)));
    }
    assert(entries@.take(i as int) =~= entries@);
    assert(output@ =~= old(output)@ + xref_table_bytes(entries@));
}

/// Whether a trailer key is left out of a written trailer.
fn is_dropped_key(k: &[u8]) -> (r: bool)
    ensures
        r == dropped_key(k@),
{
    let prev: [u8; 4] = [80u8, 114u8, 101u8, 118u8];
    let xrefstm: [u8; 7] = [88u8, 82u8, 101u8, 102u8, 83u8, 116u8, 109u8];
    let ty: [u8; 4] = [84u8, 121u8, 112u8, 101u8];
    let w: [u8; 1] = [87u8];
    let index: [u8; 5] = [73u8, 110u8, 100u8, 101u8, 120u8];
    let filter: [u8; 6] = [70u8, 105u8, 108u8, 116u8, 101u8, 114u8];
    let parms: [u8; 11] = [68u8, 101u8, 99u8, 111u8, 100u8, 101u8, 80u8, 97u8, 114u8, 109u8, 115u8];
    let length: [u8; 6] = [76u8, 101u8, 110u8, 103u8, 116u8, 104u8];
    assert(prev@ =~= seq![80u8, 114u8, 101u8, 118u8]);
    assert(xrefstm@ =~= seq![88u8, 82u8, 101u8, 102u8, 83u8, 116u8, 109u8]);
    assert(ty@ =~= seq![84u8, 121u8, 112u8, 101u8]);
    assert(w@ =~= seq![87u8]);
    assert(index@ =~= seq![73u8, 110u8, 100u8, 101u8, 120u8]);
    assert(filter@ =~= seq![70u8, 105u8, 108u8, 116u8, 101u8, 114u8]);
    assert(parms@ =~= seq![68u8, 101u8, 99u8, 111u8, 100u8, 101u8, 80u8, 97u8, 114u8, 109u8, 115u8]);
    assert(length@ =~= key_length());
    bytes_eq(k, &prev) || bytes_eq(k, &xrefstm) || bytes_eq(k, &ty) || bytes_eq(k, &w) || bytes_eq(
        k,
        &index,
    ) || bytes_eq(k, &filter) || bytes_eq(k, &parms) || bytes_eq(k, &length)
}

/// Writes the trailer: the entries of the file's trailer but those of the
/// cross-reference data, and `Size`.
fn write_trailer(output: &mut Vec<u8>, given: &PdfDict, size: u32)
    ensures
        final(output)@ == old(output)@ + trailer_bytes(given@, size as nat),
{
    let head: [u8; 8] = [116u8, 114u8, 97u8, 105u8, 108u8, 101u8, 114u8, 10u8];
    append(output, &head);
    let mut trailer = PdfDict::new();
    let n = given.len();
    let mut i: usize = 0;
    while i < n
        invariant
            n == given@.len(),
            0 <= i <= n,
            trailer@ == kept_entries(given@.take(i as int)),
        decreases n - i,
    {
        let key = given.key_at(i);
        let value = given.value_at(i);
        proof {
            assert(given@.take(i + 1).drop_last() =~= given@.take(i as int));
            assert(given@.take(i + 1).last() == given@[i as int]);
        }
        if !is_dropped_key(key) {
            trailer.insert(crate::objects::copy_bytes(key), value.clone_object());
        }
        i = i + 1;
    }
    assert(given@.take(n as int) =~= given@);
    let size_key: [u8; 4] = [83u8, 105u8, 122u8, 101u8];
    assert(size_key@ =~= key_size_out());
    trailer.insert(
        crate::objects::copy_bytes(&size_key),
        PdfObject::PdfNumber(PdfNumber::from_u64(size as u64)),
    );
    write_dict(output, &trailer);
    output.push(10u8);
    assert(output@ =~= old(output)@ + trailer_bytes(given@, size as nat));
}

/// Whether every object of the file can be read.
pub open spec fn all_file_objects_ok(ctx: PDFContext) -> bool {
    forall|id: ObjectId| #[trigger] ctx.in_file(id) ==> ctx.file_object(id) is Ok
}

/// Writes the document: every object of the file is read first; then each
/// object of the document is written in the order of object number and
/// generation (a deleted one is left out), then the xref table, the trailer
/// and the offset of the xref table.
#[verifier::spinoff_prover]
#[verifier::rlimit(40)]
pub fn write_document(document: &mut PdfDocument) -> (r: PdfResult<Vec<u8>>)
    requires
        old(document).ctx.wf(),
    ensures
        final(document).ctx.same_file(&old(document).ctx),
        final(document).ctx.store == old(document).ctx.store,
        r is Ok <==> all_file_objects_ok(old(document).ctx),
        r matches Ok(bytes) ==> exists|ids: Seq<ObjectId>|
            {
                &&& ids_sorted(ids)
                &&& forall|id: ObjectId| #[trigger] ids.contains(id) <==> old(document).ctx.known(id)
                &&& bytes@ == document_bytes(
                    write_items(old(document).ctx, ids),
                    old(document).ctx.cross_ref_table.trailer@,
                    table_size(ids),
                )
            },
        r matches Err(e) ==> exists|id: ObjectId| #[trigger] old(document).ctx.first_failure(id, e),
{
    let ghost c0 = document.ctx;
    match document.ctx.materialize_all_objects() {
        Ok(_) => {},
        Err(e) => {
            return Err(e);
        },
    }
    assert(all_file_objects_ok(c0));
    let mut output: Vec<u8> = Vec::new();
    let header: [u8; 9] = [37u8, 80u8, 68u8, 70u8, 45u8, 49u8, 46u8, 55u8, 10u8];
    assert(header@ =~= header_out());
    append(&mut output, &header);
    let ids = document.ctx.serializable_object_ids();
    let ghost items = write_items(c0, ids@);
    let max_obj_num: u32 = if ids.len() == 0 {
        0
    } else {
        ids[ids.len() - 1].obj_num
    };
    proof {
        assert forall|j: int| 0 <= j < ids@.len() implies #[trigger] ids@[j].obj_num <= max_obj_num by {
            if j < ids@.len() - 1 {
                assert(id_lt(ids@[j], ids@[ids@.len() - 1]));
            }
        }
        if ids@.len() > 0 {
            assert(ids@.contains(ids@[ids@.len() - 1]));
            assert(c0.known(ids@[ids@.len() - 1]));
            c0.lemma_known_below_next_pub(ids@[ids@.len() - 1]);
        }
    }
    let size: usize = max_obj_num as usize + 1;
    let mut rows: Vec<XrefRow> = Vec::new();
    let mut k: usize = 0;
    while k < size
        invariant
            0 <= k <= size,
            rows@ =~= Seq::new(k as nat, |i: int| if i == 0 {
                (0u64, 65535u32, 102u8)
            } else {
                (0u64, 0u32, 102u8)
            }),
        decreases size - k,
    {
        if k == 0 {
            rows.push((0u64, 65535u32, 102u8));
        } else {
            rows.push((0u64, 0u32, 102u8));
        }
        k = k + 1;
    }
    assert(items.take(0) =~= Seq::<(ObjectId, Option<Obj>)>::empty());
    let mut i: usize = 0;
    while i < ids.len()
        invariant
            0 <= i <= ids@.len(),
            document.ctx.same_file(&c0),
            document.ctx.store == c0.store,
            c0.wf(),
            document.ctx.wf(),
            all_file_objects_ok(c0),
            items == write_items(c0, ids@),
            ids_sorted(ids@),
            forall|id: ObjectId| #[trigger] ids@.contains(id) <==> c0.known(id),
            forall|j: int| 0 <= j < ids@.len() ==> #[trigger] ids@[j].obj_num <= max_obj_num,
            size == max_obj_num + 1,
            output@ == header_out() + body_bytes(items.take(i as int)),
            rows@ == xref_rows(items.take(i as int), size as nat),
        decreases ids.len() - i,
    {
        let id = ids[i];
        proof {
            assert(ids@.contains(id));
            assert(items.take(i + 1).drop_last() =~= items.take(i as int));
            assert(items.take(i + 1).last() == items[i as int]);
            assert(document.ctx.write_value(id) == c0.write_value(id));
            assert forall|j: int| 0 <= j < items.take(i as int).len() implies #[trigger] items.take(i as int)[j].0.obj_num < size by {
                assert(items.take(i as int)[j].0 == ids@[j]);
            }
            lemma_xref_rows_len(items.take(i as int), size as nat);
        }
        match document.ctx.object_for_write(id) {
            Ok(Some(obj)) => {
                let offset = output.len() as u64;
                rows.set(id.obj_num as usize, (offset, id.gen_num, 110u8));
                write_indirect_object(&mut output, id, &obj);
            },
            Ok(None) => {},
            Err(e) => {
                return Err(e);
            },
        }
        i = i + 1;
    }
    assert(items.take(i as int) =~= items);
    let xref_offset = output.len() as u64;
    write_xref_table(&mut output, rows.as_slice());
    write_trailer(&mut output, document.ctx.trailer(), max_obj_num + 1);
    let startxref: [u8; 10] = [115u8, 116u8, 97u8, 114u8, 116u8, 120u8, 114u8, 101u8, 102u8, 10u8];
    assert(startxref@ =~= startxref_out());
    append(&mut output, &startxref);
    let offset_digits = u64_to_decimal(xref_offset);
    append(&mut output, offset_digits.as_slice());
    output.push(10u8);
    let eof: [u8; 6] = [37u8, 37u8, 69u8, 79u8, 70u8, 10u8];
    assert(eof@ =~= eof_out());
    append(&mut output, &eof);
    proof {
        assert(table_size(ids@) == size);
        assert(output@ =~= document_bytes(items, c0.cross_ref_table.trailer@, table_size(ids@)));
    }
    Ok(output)
}

/// Saves the document to bytes.
pub fn save_document(document: &mut PdfDocument) -> (r: PdfResult<Vec<u8>>)
    requires
        old(document).ctx.wf(),
    ensures
        final(document).ctx.same_file(&old(document).ctx),
        final(document).ctx.store == old(document).ctx.store,
        r is Ok <==> all_file_objects_ok(old(document).ctx),
        r matches Ok(bytes) ==> exists|ids: Seq<ObjectId>|
            {
                &&& ids_sorted(ids)
                &&& forall|id: ObjectId| #[trigger] ids.contains(id) <==> old(document).ctx.known(id)
                &&& bytes@ == document_bytes(
                    write_items(old(document).ctx, ids),
                    old(document).ctx.cross_ref_table.trailer@,
                    table_size(ids),
                )
            },
        r matches Err(e) ==> exists|id: ObjectId| #[trigger] old(document).ctx.first_failure(id, e),
{
    document.save_to_bytes()
}

impl PdfDocument {
    /// The bytes of the document as `write_document` writes them.
    pub fn save_to_bytes(&mut self) -> (r: PdfResult<Vec<u8>>)
        requires
            old(self).ctx.wf(),
        ensures
            final(self).ctx.same_file(&old(self).ctx),
            final(self).ctx.store == old(self).ctx.store,
            r is Ok <==> all_file_objects_ok(old(self).ctx),
            r matches Ok(bytes) ==> exists|ids: Seq<ObjectId>|
                {
                    &&& ids_sorted(ids)
                    &&& forall|id: ObjectId| #[trigger] ids.contains(id) <==> old(self).ctx.known(id)
                    &&& bytes@ == document_bytes(
                        write_items(old(self).ctx, ids),
                        old(self).ctx.cross_ref_table.trailer@,
                        table_size(ids),
                    )
                },
            r matches Err(e) ==> exists|id: ObjectId| #[trigger] old(self).ctx.first_failure(id, e),
    {
        write_document(self)
    }
}

} // verus!
