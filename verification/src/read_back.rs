use vstd::prelude::*;
use crate::cross_ref_table::ObjectInfo;
use crate::error::PdfError;
use crate::objects::{
    Obj, ObjectId, decimal_digits, dict_find, dict_get, dict_insert, lemma_decimal_digits_number,
    lemma_dict_find_from, spec_is_number_token, spec_number_as,
};
use crate::parser::character::{spec_is_delimiter, spec_is_white_space};
use crate::parser::syntax_spec::{
    ParseMode, kw_dict_close, kw_dict_open, kw_endobj, kw_endstream, kw_false, kw_null, kw_obj,
    kw_r, kw_stream, kw_true, skip_ws, spec_array_items, spec_consume_stream_start, spec_dict_body,
    spec_dict_end, spec_expect_endstream, spec_get_indirect, spec_get_object, spec_next_word,
    spec_read_stream, spec_resolve_length, spec_stream_with_length, spec_word_unsigned,
};
use crate::round_trip::{
    entry_start, law_written_string_reads_back, lemma_decimal_word, lemma_decode_plain,
    lemma_dict_body_step, lemma_entries_bytes_concat, lemma_entry_at, lemma_get_object_skips_space,
    lemma_indirect_shape, lemma_next_word_skips_space, lemma_scan_to, lemma_word_at, plain_name,
    word_bytes,
};
use crate::writer::{
    entries_bytes, entry_bytes, indirect_bytes, items_bytes, key_length, kw_false_out, kw_null_out,
    kw_true_out, obj_bytes, stream_close, stream_entries_bytes, stream_open,
};

verus! {

// ---------------------------------------------------------------- what reads back

/// Objects that read back as the writer writes them: names and keys that
/// need no `#` escape, number lexemes that are number words, dictionaries
/// whose keys are distinct, and streams whose data has a length that fits.
pub open spec fn readable(o: Obj) -> bool
    decreases o, 0nat,
{
    match o {
        Obj::Null => true,
        Obj::Bool(_) => true,
        Obj::Number(lex) => lex.len() > 0 && word_bytes(lex) && spec_is_number_token(lex),
        Obj::Str(_, _) => true,
        Obj::Name(n) => plain_name(n),
        Obj::Ref(_, _) => true,
        Obj::Array(items) => readable_items(items),
        Obj::Dict(es) => readable_entries(es),
        Obj::Stream(es, data) => readable_entries(es) && data.len() <= u64::MAX,
    }
}

/// Items that each read back.
pub open spec fn readable_items(items: Seq<Obj>) -> bool
    decreases items, 1nat,
{
    if items.len() == 0 {
        true
    } else {
        readable_items(items.drop_last()) && readable(items[items.len() - 1])
    }
}

/// Entries with plain keys, each new, and values that read back.
pub open spec fn readable_entries(es: Seq<(Seq<u8>, Obj)>) -> bool
    decreases es, 1nat,
{
    if es.len() == 0 {
        true
    } else {
        &&& readable_entries(es.drop_last())
        &&& plain_name(es[es.len() - 1].0)
        &&& dict_find(es.drop_last(), es[es.len() - 1].0) is None
        &&& readable(es[es.len() - 1].1)
    }
}

/// What an object reads back as: a string as a literal string, a stream
/// with `Length` set to the length of its data, the rest as it is.
pub open spec fn read_form(o: Obj) -> Obj
    decreases o, 0nat,
{
    match o {
        Obj::Str(s, _) => Obj::Str(s, false),
        Obj::Array(items) => Obj::Array(read_items(items)),
        Obj::Dict(es) => Obj::Dict(read_entries(es)),
        Obj::Stream(es, data) => Obj::Stream(with_length(read_entries(es), data.len()), data),
        _ => o,
    }
}

pub open spec fn read_items(items: Seq<Obj>) -> Seq<Obj>
    decreases items, 1nat,
{
    if items.len() == 0 {
        Seq::empty()
    } else {
        read_items(items.drop_last()).push(read_form(items[items.len() - 1]))
    }
}

pub open spec fn read_entries(es: Seq<(Seq<u8>, Obj)>) -> Seq<(Seq<u8>, Obj)>
    decreases es, 1nat,
{
    if es.len() == 0 {
        Seq::empty()
    } else {
        read_entries(es.drop_last()).push((es[es.len() - 1].0, read_form(es[es.len() - 1].1)))
    }
}

/// Each item of readable items reads back.
pub proof fn lemma_readable_item(items: Seq<Obj>, j: int)
    requires
        readable_items(items),
        0 <= j < items.len(),
    ensures
        readable(items[j]),
    decreases items.len(),
{
    if j < items.len() - 1 {
        lemma_readable_item(items.drop_last(), j);
    }
}

/// Each entry of readable entries has a plain key that no entry before it
/// has, and a value that reads back.
pub proof fn lemma_readable_entry(es: Seq<(Seq<u8>, Obj)>, j: int)
    requires
        readable_entries(es),
        0 <= j < es.len(),
    ensures
        plain_name(es[j].0),
        dict_find(es.take(j), es[j].0) is None,
        readable(es[j].1),
    decreases es.len(),
{
    if j < es.len() - 1 {
        lemma_readable_entry(es.drop_last(), j);
        assert(es.drop_last().take(j) =~= es.take(j));
    } else {
        assert(es.drop_last() =~= es.take(j));
    }
}

/// The items read back, one by one.
pub proof fn lemma_read_items_take(items: Seq<Obj>, j: int)
    requires
        0 <= j < items.len(),
    ensures
        read_items(items.take(j + 1)) == read_items(items.take(j)).push(read_form(items[j])),
{
    assert(items.take(j + 1).drop_last() =~= items.take(j));
}

/// The entries read back, one by one.
pub proof fn lemma_read_entries_take(es: Seq<(Seq<u8>, Obj)>, j: int)
    requires
        0 <= j < es.len(),
    ensures
        read_entries(es.take(j + 1)) == read_entries(es.take(j)).push((es[j].0, read_form(es[j].1))),
{
    assert(es.take(j + 1).drop_last() =~= es.take(j));
}

/// Reading back keeps each key in its place and reads its value back.
pub proof fn lemma_read_entries_index(es: Seq<(Seq<u8>, Obj)>)
    ensures
        read_entries(es).len() == es.len(),
        forall|i: int|
            0 <= i < es.len() ==> #[trigger] read_entries(es)[i] == (es[i].0, read_form(es[i].1)),
    decreases es.len(),
{
    if es.len() > 0 {
        lemma_read_entries_index(es.drop_last());
    }
}

/// Reading back keeps the keys in their places.
pub proof fn lemma_read_entries_keys(es: Seq<(Seq<u8>, Obj)>)
    ensures
        read_entries(es).len() == es.len(),
        forall|i: int| 0 <= i < es.len() ==> (#[trigger] read_entries(es)[i]).0 == es[i].0,
{
    lemma_read_entries_index(es);
}

/// Entries with the same keys in the same places find a key at the same place.
pub proof fn lemma_dict_find_same_keys(a: Seq<(Seq<u8>, Obj)>, b: Seq<(Seq<u8>, Obj)>, k: Seq<u8>, i: int)
    requires
        0 <= i,
        a.len() == b.len(),
        forall|j: int| 0 <= j < a.len() ==> (#[trigger] a[j]).0 == b[j].0,
    ensures
        crate::objects::dict_find_from(a, k, i) == crate::objects::dict_find_from(b, k, i),
    decreases a.len() - i,
{
    if i < a.len() {
        lemma_dict_find_same_keys(a, b, k, i + 1);
    }
}

/// After inserting `v` under `k`, `k` gives `v`, and the keys are those of
/// before with `k` added at the end when it was new.
pub proof fn lemma_dict_insert_get(es: Seq<(Seq<u8>, Obj)>, k: Seq<u8>, v: Obj)
    ensures
        dict_get(dict_insert(es, k, v), k) == Some(v),
{
    lemma_dict_find_from(es, k, 0);
    let r = dict_insert(es, k, v);
    match dict_find(es, k) {
        Some(i) => {
            assert forall|j: int| 0 <= j < es.len() implies (#[trigger] es[j]).0 == r[j].0 by {
                if j == i {
                    assert(r[j] == (k, v));
                }
            }
            lemma_dict_find_same_keys(es, r, k, 0);
            assert(dict_find(r, k) == Some(i));
            assert(r[i] == (k, v));
        },
        None => {
            lemma_dict_find_from(r, k, 0);
            assert(r[es.len() as int] == (k, v));
            if dict_find(r, k) is Some {
                let j = dict_find(r, k)->0;
                if j < es.len() {
                    assert(r[j] == es[j]);
                }
            }
        },
    }
}

/// Inserting a plain key with a value that reads back keeps entries that
/// read back.
pub proof fn lemma_readable_insert(es: Seq<(Seq<u8>, Obj)>, k: Seq<u8>, v: Obj)
    requires
        readable_entries(es),
        plain_name(k),
        readable(v),
    ensures
        readable_entries(dict_insert(es, k, v)),
    decreases es.len(),
{
    lemma_dict_find_from(es, k, 0);
    match dict_find(es, k) {
        None => {
            assert(dict_insert(es, k, v).drop_last() =~= es);
        },
        Some(i) => {
            let r = es.update(i, (k, v));
            let n = es.len() - 1;
            if i == n {
                assert(r.drop_last() =~= es.drop_last());
            } else {
                let el = es.drop_last();
                lemma_dict_find_from(el, k, 0);
                lemma_dict_find_same_keys(es, el.push(es[n]), k, 0);
                assert(es =~= el.push(es[n]));
                crate::objects::lemma_dict_find_from(el, k, 0);
                assert(dict_find(el, k) == Some(i)) by {
                    lemma_dict_find_prefix(es, k, 0);
                }
                lemma_readable_insert(el, k, v);
                assert(r.drop_last() =~= el.update(i, (k, v)));
                lemma_dict_find_same_keys(el, el.update(i, (k, v)), es[n].0, 0);
            }
        },
    }
}

/// A key found before the last entry is found at the same place without it.
pub proof fn lemma_dict_find_prefix(es: Seq<(Seq<u8>, Obj)>, k: Seq<u8>, i: int)
    requires
        0 <= i,
        es.len() > 0,
        crate::objects::dict_find_from(es, k, i) matches Some(j) && j < es.len() - 1,
    ensures
        crate::objects::dict_find_from(es.drop_last(), k, i) == crate::objects::dict_find_from(es, k, i),
    decreases es.len() - i,
{
    if es[i].0 != k {
        lemma_dict_find_prefix(es, k, i + 1);
    }
}

/// Reading back entries after inserting a value that reads back as itself
/// is inserting it into the entries read back.
pub proof fn lemma_read_entries_insert(es: Seq<(Seq<u8>, Obj)>, k: Seq<u8>, v: Obj)
    requires
        read_form(v) == v,
    ensures
        read_entries(dict_insert(es, k, v)) == dict_insert(read_entries(es), k, v),
{
    lemma_dict_find_from(es, k, 0);
    lemma_read_entries_index(es);
    lemma_dict_find_same_keys(es, read_entries(es), k, 0);
    match dict_find(es, k) {
        None => {
            assert(es.push((k, v)).drop_last() =~= es);
        },
        Some(i) => {
            let r = es.update(i, (k, v));
            lemma_read_entries_index(r);
            assert(read_entries(r) =~= read_entries(es).update(i, (k, v)));
        },
    }
}

// ---------------------------------------------------------------- what follows an object

/// The words from `p` let an object before them end there: the first word
/// is neither `stream` nor `R`, and when it is a number, a second word
/// follows that is not `R`.
pub open spec fn starts_ok(d: Seq<u8>, p: int) -> bool {
    match spec_next_word(d, p).1 {
        Ok((r1, n1)) => r1 != kw_stream() && r1 != kw_r() && (n1 ==> match spec_next_word(
            d,
            spec_next_word(d, p).0,
        ).1 {
            Ok((r2, _)) => r2 != kw_r(),
            Err(_) => false,
        }),
        Err(_) => false,
    }
}

/// What may follow a written object: white space or a delimiter, then words
/// that let it end.
pub open spec fn ok_after(d: Seq<u8>, e: int) -> bool {
    &&& 0 <= e < d.len()
    &&& (spec_is_white_space(d[e]) || spec_is_delimiter(d[e]))
    &&& starts_ok(d, e)
}

/// The bytes of `o` stand at `p`.
pub open spec fn written_at(d: Seq<u8>, p: int, o: Obj) -> bool {
    &&& 0 <= p
    &&& p + obj_bytes(o).len() <= d.len()
    &&& d.subrange(p, p + obj_bytes(o).len()) == obj_bytes(o)
}

/// A written object's bytes, one by one.
pub proof fn lemma_written_bytes(d: Seq<u8>, p: int, o: Obj)
    requires
        written_at(d, p, o),
    ensures
        forall|i: int| 0 <= i < obj_bytes(o).len() ==> #[trigger] d[p + i] == obj_bytes(o)[i],
{
    assert forall|i: int| 0 <= i < obj_bytes(o).len() implies #[trigger] d[p + i] == obj_bytes(o)[i] by {
        assert(d[p + i] == d.subrange(p, p + obj_bytes(o).len())[i]);
    }
}

/// A written object lets an object before it end: its first word is
/// neither `stream`, `R` nor `]`, and when it is a number a word follows it
/// that is not `R`.
pub proof fn lemma_starts_ok(d: Seq<u8>, p: int, o: Obj)
    requires
        readable(o),
        written_at(d, p, o),
        ok_after(d, p + obj_bytes(o).len()),
    ensures
        starts_ok(d, p),
        spec_next_word(d, p).1 matches Ok((r1, _)) && r1 != seq![93u8],
{
    let ob = obj_bytes(o);
    let e = p + ob.len();
    lemma_written_bytes(d, p, o);
    assert(!spec_is_number_token(kw_r()));
    assert(!spec_is_number_token(kw_stream()));
    assert(!spec_is_number_token(seq![93u8]));
    match o {
        Obj::Null => {
            assert(d.subrange(p, e) =~= kw_null_out());
            assert(word_bytes(kw_null_out()));
            lemma_word_at(d, p, kw_null_out());
            assert(!spec_is_number_token(kw_null_out()));
        },
        Obj::Bool(b) => {
            if b {
                assert(d.subrange(p, e) =~= kw_true_out());
                assert(word_bytes(kw_true_out()));
                lemma_word_at(d, p, kw_true_out());
                assert(!spec_is_number_token(kw_true_out()));
            } else {
                assert(d.subrange(p, e) =~= kw_false_out());
                assert(word_bytes(kw_false_out()));
                lemma_word_at(d, p, kw_false_out());
                assert(!spec_is_number_token(kw_false_out()));
            }
        },
        Obj::Number(lex) => {
            lemma_word_at(d, p, lex);
        },
        Obj::Str(s, h) => {
            assert(ob[0] == 40u8);
            assert(d[p + 0] == ob[0]);
            assert(d[p] == 40u8);
            assert(skip_ws(d, p, false) == Some(p));
        },
        Obj::Name(n) => {
            assert(d[p + 0] == ob[0]);
            assert(d[p] == 47u8);
            assert(skip_ws(d, p, false) == Some(p));
            assert forall|i: int| p + 1 <= i < e implies !spec_is_delimiter(#[trigger] d[i])
                && !spec_is_white_space(d[i]) by {
                assert(d[i] == ob[i - p]);
                assert(ob[i - p] == n[i - p - 1]);
            }
            lemma_scan_to(d, p + 1, e);
        },
        Obj::Ref(n, g) => {
            let dn = decimal_digits(n as nat);
            let dg = decimal_digits(g as nat);
            lemma_decimal_word(n as nat, u32::MAX as nat);
            lemma_decimal_word(g as nat, u32::MAX as nat);
            assert(ob =~= dn + seq![32u8] + dg + seq![32u8, 82u8]);
            let a = p + dn.len();
            let b = a + 1 + dg.len();
            assert(d.subrange(p, a) =~= dn);
            assert(d[a] == ob[dn.len() as int]);
            lemma_word_at(d, p, dn);
            lemma_next_word_skips_space(d, a);
            assert forall|j: int| 0 <= j < dg.len() implies #[trigger] d.subrange(a + 1, b)[j] == dg[j] by {
                assert(d[p + (dn.len() + 1 + j)] == ob[dn.len() + 1 + j]);
            }
            assert(d.subrange(a + 1, b) =~= dg);
            assert(d[b] == ob[(dn.len() + 1 + dg.len()) as int]);
            lemma_word_at(d, a + 1, dg);
            assert(dg != kw_r()) by {
                assert(spec_is_number_token(dg));
            }
        },
        Obj::Array(items) => {
            assert(d[p + 0] == ob[0]);
            assert(d[p] == 91u8);
            assert(skip_ws(d, p, false) == Some(p));
        },
        Obj::Dict(es) => {
            assert(d[p + 0] == ob[0]);
            assert(d[p + 1] == ob[1]);
            assert(d[p] == 60u8);
            assert(d[p + 1] == 60u8);
            assert(skip_ws(d, p, false) == Some(p));
            assert(spec_next_word(d, p).1 == Ok::<(Seq<u8>, bool), PdfError>((kw_dict_open(), false)));
        },
        Obj::Stream(_, _) => {},
    }
}

// ---------------------------------------------------------------- arrays

/// Where item `j` of an array written from `base` ends.
pub open spec fn item_end(base: int, items: Seq<Obj>, j: int) -> int {
    base + items_bytes(items.take(j + 1)).len()
}

/// Where item `j` starts: at `base`, or after the space that follows the
/// item before it.
pub open spec fn item_start(base: int, items: Seq<Obj>, j: int) -> int {
    if j == 0 {
        base
    } else {
        item_end(base, items, j - 1) + 1
    }
}

/// The items written first come first.
pub proof fn lemma_items_prefix(items: Seq<Obj>, m: int)
    requires
        0 <= m <= items.len(),
    ensures
        items_bytes(items.take(m)).len() <= items_bytes(items).len(),
        items_bytes(items).take(items_bytes(items.take(m)).len() as int) == items_bytes(items.take(m)),
    decreases items.len(),
{
    if m == items.len() {
        assert(items.take(m) =~= items);
    } else {
        let its = items.drop_last();
        lemma_items_prefix(its, m);
        assert(its.take(m) =~= items.take(m));
        let a = items_bytes(its);
        let b = items_bytes(items);
        let t = items_bytes(items.take(m));
        if items.len() == 1 {
            assert(items.take(m) =~= Seq::<Obj>::empty());
            assert(t =~= Seq::<u8>::empty());
            assert(b.take(0) =~= Seq::<u8>::empty());
        } else {
            assert(b == a + seq![32u8] + obj_bytes(items[items.len() - 1]));
            assert(b.take(t.len() as int) =~= a.take(t.len() as int));
        }
    }
}

/// Item `j` stands between its start and its end, after a space when it is
/// not the first.
pub proof fn lemma_item_at(d: Seq<u8>, base: int, items: Seq<Obj>, j: int)
    requires
        0 <= base,
        0 <= j < items.len(),
        base + items_bytes(items).len() <= d.len(),
        d.subrange(base, base + items_bytes(items).len()) == items_bytes(items),
    ensures
        written_at(d, item_start(base, items, j), items[j]),
        item_end(base, items, j) == item_start(base, items, j) + obj_bytes(items[j]).len(),
        item_end(base, items, j) <= base + items_bytes(items).len(),
        j > 0 ==> d[item_start(base, items, j) - 1] == 32u8,
        j == items.len() - 1 ==> item_end(base, items, j) == base + items_bytes(items).len(),
{
    let ib = items_bytes(items);
    let t1 = items.take(j + 1);
    let t0 = items.take(j);
    assert(t1.drop_last() =~= t0);
    assert(t1[t1.len() - 1] == items[j]);
    let ob = obj_bytes(items[j]);
    let sep: Seq<u8> = if j == 0 {
        Seq::empty()
    } else {
        seq![32u8]
    };
    if j == 0 {
        assert(items_bytes(t1) == ob);
        assert(t0 =~= Seq::<Obj>::empty());
        assert(items_bytes(t0) =~= Seq::<u8>::empty());
    }
    assert(items_bytes(t1) =~= items_bytes(t0) + sep + ob);
    lemma_items_prefix(items, j + 1);
    let s0 = item_start(base, items, j);
    let e0 = item_end(base, items, j);
    assert(e0 == s0 + ob.len());
    assert forall|i: int| 0 <= i < items_bytes(t1).len() implies #[trigger] d[base + i] == items_bytes(t1)[i] by {
        assert(d[base + i] == d.subrange(base, base + ib.len())[i]);
        assert(ib.take(items_bytes(t1).len() as int)[i] == ib[i]);
    }
    assert forall|i: int| 0 <= i < ob.len() implies #[trigger] d.subrange(s0, e0)[i] == ob[i] by {
        assert(d[base + (items_bytes(t0).len() + sep.len() + i)] == items_bytes(t1)[items_bytes(t0).len()
            + sep.len() + i]);
    }
    assert(d.subrange(s0, e0) =~= ob);
    if j > 0 {
        assert(d[base + items_bytes(t0).len()] == items_bytes(t1)[items_bytes(t0).len() as int]);
    }
    if j == items.len() - 1 {
        assert(t1 =~= items);
    }
}

/// `]` ends an array and lets the object before it end.
pub proof fn lemma_close_bracket(d: Seq<u8>, q: int)
    requires
        0 <= q < d.len(),
        d[q] == 93u8,
    ensures
        spec_next_word(d, q) == (q + 1, Ok::<(Seq<u8>, bool), PdfError>((seq![93u8], false))),
        ok_after(d, q),
{
    assert(skip_ws(d, q, false) == Some(q));
    assert(!spec_is_number_token(seq![93u8]));
}

/// Each item of a written array is followed by what lets it end.
pub proof fn lemma_items_ok_after(d: Seq<u8>, base: int, items: Seq<Obj>, j: int)
    requires
        0 <= base,
        0 <= j < items.len(),
        readable_items(items),
        base + items_bytes(items).len() < d.len(),
        d.subrange(base, base + items_bytes(items).len()) == items_bytes(items),
        d[base + items_bytes(items).len()] == 93u8,
    ensures
        ok_after(d, item_end(base, items, j)),
    decreases items.len() - j,
{
    lemma_item_at(d, base, items, j);
    if j == items.len() - 1 {
        lemma_close_bracket(d, base + items_bytes(items).len());
    } else {
        lemma_items_ok_after(d, base, items, j + 1);
        lemma_item_at(d, base, items, j + 1);
        lemma_readable_item(items, j + 1);
        let e = item_end(base, items, j);
        lemma_starts_ok(d, e + 1, items[j + 1]);
        lemma_next_word_skips_space(d, e);
    }
}

// ---------------------------------------------------------------- reading back

/// A new line, then a name or `>>`, lets an object before it end.
pub proof fn lemma_name_or_close_after(d: Seq<u8>, q: int)
    requires
        0 <= q,
        q + 2 < d.len(),
        d[q] == 10u8,
        d[q + 1] == 47u8 || (d[q + 1] == 62u8 && d[q + 2] == 62u8),
    ensures
        ok_after(d, q),
{
    lemma_next_word_skips_space(d, q);
    assert(skip_ws(d, q + 1, false) == Some(q + 1));
    if d[q + 1] == 47u8 {
        crate::parser::syntax_spec::lemma_scan_regular(d, q + 2);
        let e = crate::parser::syntax_spec::scan_regular(d, q + 2);
        let raw = d.subrange(q + 1, e);
        assert(raw[0] == 47u8);
        assert(raw != kw_stream()) by {
            assert(kw_stream()[0] != 47u8);
        }
        assert(raw != kw_r()) by {
            assert(kw_r()[0] != 47u8);
        }
    }
}

/// An object other than an array or a dictionary, written at `p`, with what
/// lets it end after it, reads back.
#[verifier::spinoff_prover]
#[verifier::rlimit(40)]
pub proof fn lemma_read_atom(d: Seq<u8>, p: int, o: Obj, mode: ParseMode, x: Option<Seq<ObjectInfo>>)
    requires
        readable(o),
        !(o is Array),
        !(o is Dict),
        !(o is Stream),
        written_at(d, p, o),
        ok_after(d, p + obj_bytes(o).len()),
    ensures
        spec_get_object(d, p, mode, x) == (p + obj_bytes(o).len(), Ok::<Obj, PdfError>(read_form(o))),
{
    let ob = obj_bytes(o);
    let e = p + ob.len();
    lemma_written_bytes(d, p, o);
    match o {
        Obj::Null => {
            assert(d.subrange(p, e) =~= kw_null_out());
            assert(word_bytes(kw_null_out()));
            lemma_word_at(d, p, kw_null_out());
            assert(!spec_is_number_token(kw_null_out()));
        },
        Obj::Bool(b) => {
            if b {
                assert(d.subrange(p, e) =~= kw_true_out());
                assert(word_bytes(kw_true_out()));
                lemma_word_at(d, p, kw_true_out());
                assert(!spec_is_number_token(kw_true_out()));
            } else {
                assert(d.subrange(p, e) =~= kw_false_out());
                assert(word_bytes(kw_false_out()));
                lemma_word_at(d, p, kw_false_out());
                assert(!spec_is_number_token(kw_false_out()));
                assert(kw_false_out() != kw_true());
            }
        },
        Obj::Number(lex) => {
            lemma_word_at(d, p, lex);
        },
        Obj::Str(s, h) => {
            let pre = d.take(p);
            let rest = d.skip(e);
            assert(d =~= pre + ob + rest);
            law_written_string_reads_back(pre, s, h, rest, mode, x);
        },
        Obj::Name(n) => {
            assert(d[p + 0] == ob[0]);
            assert(skip_ws(d, p, false) == Some(p));
            assert forall|i: int| p + 1 <= i < e implies !spec_is_delimiter(#[trigger] d[i])
                && !spec_is_white_space(d[i]) by {
                assert(d[i] == ob[i - p]);
                assert(ob[i - p] == n[i - p - 1]);
            }
            lemma_scan_to(d, p + 1, e);
            assert(d.subrange(p, e) =~= ob);
            assert(n.take(0) =~= Seq::<u8>::empty());
            lemma_decode_plain(n, 1);
            assert(ob != kw_true() && ob != kw_false() && ob != kw_null()) by {
                assert(kw_true()[0] != 47u8 && kw_false()[0] != 47u8 && kw_null()[0] != 47u8);
            }
            assert(ob != seq![40u8] && ob != seq![60u8] && ob != seq![91u8]);
        },
        Obj::Ref(n, g) => {
            let dn = decimal_digits(n as nat);
            let dg = decimal_digits(g as nat);
            lemma_decimal_word(n as nat, u32::MAX as nat);
            lemma_decimal_word(g as nat, u32::MAX as nat);
            assert(ob =~= dn + seq![32u8] + dg + seq![32u8, 82u8]);
            let a = p + dn.len();
            let b = a + 1 + dg.len();
            assert(d.subrange(p, a) =~= dn);
            assert(d[a] == ob[dn.len() as int]);
            lemma_word_at(d, p, dn);
            lemma_next_word_skips_space(d, a);
            assert forall|j: int| 0 <= j < dg.len() implies #[trigger] d.subrange(a + 1, b)[j] == dg[j] by {
                assert(d[p + (dn.len() + 1 + j)] == ob[dn.len() + 1 + j]);
            }
            assert(d.subrange(a + 1, b) =~= dg);
            assert(d[b] == ob[(dn.len() + 1 + dg.len()) as int]);
            lemma_word_at(d, a + 1, dg);
            lemma_next_word_skips_space(d, b);
            assert(d[p + (dn.len() + 2 + dg.len())] == ob[(dn.len() + 2 + dg.len()) as int]);
            assert(d[b + 1] == 82u8);
            assert(d.subrange(b + 1, b + 2) =~= kw_r());
            assert(word_bytes(kw_r()));
            lemma_word_at(d, b + 1, kw_r());
        },
        _ => {},
    }
}

/// A written array, with what lets it end after it, reads back.
#[verifier::spinoff_prover]
#[verifier::rlimit(40)]
pub proof fn lemma_read_array(d: Seq<u8>, p: int, items: Seq<Obj>, mode: ParseMode, x: Option<Seq<ObjectInfo>>)
    requires
        readable_items(items),
        written_at(d, p, Obj::Array(items)),
        ok_after(d, p + obj_bytes(Obj::Array(items)).len()),
    ensures
        spec_get_object(d, p, mode, x) == (
            p + obj_bytes(Obj::Array(items)).len(),
            Ok::<Obj, PdfError>(Obj::Array(read_items(items))),
        ),
    decreases items, 2nat, 0nat,
{
    let ob = obj_bytes(Obj::Array(items));
    let e = p + ob.len();
    lemma_written_bytes(d, p, Obj::Array(items));
    let ib = items_bytes(items);
    assert(ob =~= seq![91u8] + ib + seq![93u8]);
    assert(d[p + 0] == ob[0]);
    assert(skip_ws(d, p, false) == Some(p));
    assert(d.subrange(p + 1, p + 1 + ib.len()) =~= ib) by {
        assert forall|i: int| 0 <= i < ib.len() implies #[trigger] d.subrange(p + 1, p + 1 + ib.len())[i]
            == ib[i] by {
            assert(d[p + (1 + i)] == ob[1 + i]);
        }
    }
    assert(d[p + (1 + ib.len())] == ob[(1 + ib.len()) as int]);
    assert(items.take(0) =~= Seq::<Obj>::empty());
    lemma_read_array_from(d, p + 1, items, 0, mode, x);
    assert(seq![91u8] != kw_true() && seq![91u8] != kw_false() && seq![91u8] != kw_null());
}

/// A written dictionary, with what lets it end after it, reads back.
#[verifier::spinoff_prover]
#[verifier::rlimit(40)]
pub proof fn lemma_read_dict(
    d: Seq<u8>,
    p: int,
    es: Seq<(Seq<u8>, Obj)>,
    mode: ParseMode,
    x: Option<Seq<ObjectInfo>>,
)
    requires
        readable_entries(es),
        written_at(d, p, Obj::Dict(es)),
        ok_after(d, p + obj_bytes(Obj::Dict(es)).len()),
    ensures
        spec_get_object(d, p, mode, x) == (
            p + obj_bytes(Obj::Dict(es)).len(),
            Ok::<Obj, PdfError>(Obj::Dict(read_entries(es))),
        ),
    decreases es, 2nat, 0nat,
{
    let ob = obj_bytes(Obj::Dict(es));
    let e = p + ob.len();
    lemma_written_bytes(d, p, Obj::Dict(es));
    let eb = entries_bytes(es);
    let end = p + 2 + eb.len();
    assert(ob =~= seq![60u8, 60u8] + eb + seq![10u8, 62u8, 62u8]);
    assert(d[p + 0] == ob[0]);
    assert(d[p + 1] == ob[1]);
    assert(skip_ws(d, p, false) == Some(p));
    assert(spec_next_word(d, p) == (p + 2, Ok::<(Seq<u8>, bool), PdfError>((kw_dict_open(), false))));
    assert(d.subrange(p + 2, end) =~= eb) by {
        assert forall|i: int| 0 <= i < eb.len() implies #[trigger] d.subrange(p + 2, end)[i] == eb[i] by {
            assert(d[p + (2 + i)] == ob[2 + i]);
        }
    }
    assert(d[p + (2 + eb.len())] == ob[(2 + eb.len()) as int]);
    assert(d[p + (3 + eb.len())] == ob[(3 + eb.len()) as int]);
    assert(d[p + (4 + eb.len())] == ob[(4 + eb.len()) as int]);
    assert(es.take(0) =~= Seq::<(Seq<u8>, Obj)>::empty());
    assert(read_entries(Seq::<(Seq<u8>, Obj)>::empty()) =~= Seq::<(Seq<u8>, Obj)>::empty());
    assert(entries_bytes(Seq::<(Seq<u8>, Obj)>::empty()) =~= Seq::<u8>::empty());
    lemma_read_entries_from(d, p + 2, es, 0, mode, x);
    assert(es.take(es.len() as int) =~= es);
    lemma_next_word_skips_space(d, end);
    assert(skip_ws(d, end + 1, false) == Some(end + 1));
    assert(spec_next_word(d, end) == (end + 3, Ok::<(Seq<u8>, bool), PdfError>((kw_dict_close(), false))));
    assert(end + 3 == e);
    let acc = read_entries(es);
    assert(spec_dict_body(d, end, mode, x, acc) == spec_dict_end(d, e, mode, x, acc));
    assert(starts_ok(d, e));
    assert(spec_dict_end(d, e, mode, x, acc) == (e, Ok::<Obj, PdfError>(Obj::Dict(acc))));
    assert(kw_dict_open() != kw_true() && kw_dict_open() != kw_false() && kw_dict_open() != kw_null());
    assert(kw_dict_open() != seq![40u8] && kw_dict_open() != seq![60u8] && kw_dict_open() != seq![91u8]);
    assert(kw_dict_open()[0] != 47u8);
}

/// An object written at `p`, with what lets it end after it, reads back.
pub proof fn lemma_read_object(d: Seq<u8>, p: int, o: Obj, mode: ParseMode, x: Option<Seq<ObjectInfo>>)
    requires
        readable(o),
        written_at(d, p, o),
        ok_after(d, p + obj_bytes(o).len()),
    ensures
        spec_get_object(d, p, mode, x) == (p + obj_bytes(o).len(), Ok::<Obj, PdfError>(read_form(o))),
    decreases o, 0nat, 0nat,
{
    match o {
        Obj::Array(items) => lemma_read_array(d, p, items, mode, x),
        Obj::Dict(es) => lemma_read_dict(d, p, es, mode, x),
        Obj::Stream(es, data) => lemma_read_stream(d, p, es, data, mode, x),
        _ => lemma_read_atom(d, p, o, mode, x),
    }
}

/// Reading the items `j..` of a written array, up to its `]`.
#[verifier::spinoff_prover]
pub proof fn lemma_read_array_from(
    d: Seq<u8>,
    base: int,
    items: Seq<Obj>,
    j: int,
    mode: ParseMode,
    x: Option<Seq<ObjectInfo>>,
)
    requires
        0 <= base,
        0 <= j <= items.len(),
        readable_items(items),
        base + items_bytes(items).len() < d.len(),
        d.subrange(base, base + items_bytes(items).len()) == items_bytes(items),
        d[base + items_bytes(items).len()] == 93u8,
    ensures
        spec_array_items(
            d,
            if j == 0 {
                base
            } else {
                item_end(base, items, j - 1)
            },
            mode,
            x,
            read_items(items.take(j)),
        ) == (base + items_bytes(items).len() + 1, Ok::<Obj, PdfError>(Obj::Array(read_items(items)))),
    decreases items, 1nat, items.len() - j,
{
    let q = if j == 0 {
        base
    } else {
        item_end(base, items, j - 1)
    };
    if j < items.len() {
        lemma_item_at(d, base, items, j);
        lemma_readable_item(items, j);
        lemma_items_ok_after(d, base, items, j);
        let s = item_start(base, items, j);
        lemma_starts_ok(d, s, items[j]);
        lemma_read_object(d, s, items[j], mode, x);
        if j > 0 {
            lemma_next_word_skips_space(d, q);
            lemma_get_object_skips_space(d, q, mode, x);
        }
        lemma_read_items_take(items, j);
        lemma_read_array_from(d, base, items, j + 1, mode, x);
    } else {
        if j > 0 {
            lemma_item_at(d, base, items, j - 1);
        } else {
            assert(items_bytes(items) =~= Seq::<u8>::empty());
        }
        lemma_close_bracket(d, base + items_bytes(items).len());
        assert(items.take(j) =~= items);
    }
}

/// Reading the entries `j..` of a written dictionary, up to its `>>`.
#[verifier::spinoff_prover]
#[verifier::rlimit(60)]
pub proof fn lemma_read_entries_from(
    d: Seq<u8>,
    base: int,
    es: Seq<(Seq<u8>, Obj)>,
    j: nat,
    mode: ParseMode,
    x: Option<Seq<ObjectInfo>>,
)
    requires
        0 <= base,
        readable_entries(es),
        j <= es.len(),
        base + entries_bytes(es).len() + 2 < d.len(),
        d.subrange(base, base + entries_bytes(es).len()) == entries_bytes(es),
        d[base + entries_bytes(es).len()] == 10u8,
        d[base + entries_bytes(es).len() + 1] == 62u8,
        d[base + entries_bytes(es).len() + 2] == 62u8,
    ensures
        spec_dict_body(d, entry_start(base, es, j as int), mode, x, read_entries(es.take(j as int)))
            == spec_dict_body(d, base + entries_bytes(es).len(), mode, x, read_entries(es)),
    decreases es, 1nat, es.len() - j,
{
    if j < es.len() {
        let ji = j as int;
        lemma_entry_at(d, base, es, ji);
        lemma_readable_entry(es, ji);
        let p = entry_start(base, es, ji);
        let p2 = entry_start(base, es, ji + 1);
        let k = es[ji].0;
        let v = es[ji].1;
        let ob = obj_bytes(v);
        let eb = entry_bytes(k, ob);
        assert(eb =~= seq![10u8, 47u8] + k + seq![32u8] + ob);
        assert forall|i: int| 0 <= i < eb.len() implies #[trigger] d[p + i] == eb[i] by {
            assert(d[p + i] == d.subrange(p, p2)[i]);
        }
        assert(d[p + 0] == eb[0]);
        lemma_next_word_skips_space(d, p);
        let e = p + 2 + k.len();
        assert(d[p + 1] == eb[1]);
        assert(skip_ws(d, p + 1, false) == Some(p + 1));
        assert forall|i: int| p + 2 <= i < e implies !spec_is_delimiter(#[trigger] d[i])
            && !spec_is_white_space(d[i]) by {
            assert(d[p + (i - p)] == eb[i - p]);
            assert(eb[i - p] == k[i - p - 2]);
        }
        assert(d[p + (2 + k.len())] == eb[(2 + k.len()) as int]);
        lemma_scan_to(d, p + 2, e);
        assert forall|i: int| 0 <= i < k.len() + 1 implies #[trigger] d.subrange(p + 1, e)[i] == (seq![47u8]
            + k)[i] by {
            assert(d[p + (1 + i)] == eb[1 + i]);
        }
        assert(d.subrange(p + 1, e) =~= seq![47u8] + k);
        assert(spec_next_word(d, p + 1) == (e, Ok::<(Seq<u8>, bool), PdfError>((seq![47u8] + k, false))));
        assert(k.take(0) =~= Seq::<u8>::empty());
        lemma_decode_plain(k, 1);
        let acc = read_entries(es.take(ji));
        lemma_read_entries_keys(es.take(ji));
        lemma_dict_find_from(es.take(ji), k, 0);
        lemma_dict_find_from(acc, k, 0);
        assert(dict_find(acc, k) is None) by {
            if dict_find(acc, k) is Some {
                let i = dict_find(acc, k)->0;
                assert(acc[i].0 == es.take(ji)[i].0);
            }
        }
        assert(dict_insert(acc, k, read_form(v)) == acc.push((k, read_form(v))));
        assert(d[p + (2 + k.len())] == 32u8);
        lemma_get_object_skips_space(d, e, mode, x);
        assert(d.subrange(e + 1, e + 1 + ob.len()) =~= ob) by {
            assert forall|i: int| 0 <= i < ob.len() implies #[trigger] d.subrange(e + 1, e + 1 + ob.len())[i]
                == ob[i] by {
                assert(d[p + (3 + k.len() + i)] == eb[3 + k.len() + i]);
            }
        }
        assert(e + 1 + ob.len() == p2);
        if ji + 1 < es.len() {
            lemma_entry_at(d, base, es, ji + 1);
            let nb = entry_bytes(es[ji + 1].0, obj_bytes(es[ji + 1].1));
            let p3 = entry_start(base, es, ji + 2);
            assert(d[p2] == d.subrange(p2, p3)[0]);
            assert(d[p2 + 1] == d.subrange(p2, p3)[1]);
            assert(nb[0] == 10u8 && nb[1] == 47u8);
        } else {
            assert(es.take(ji + 1) =~= es);
        }
        lemma_name_or_close_after(d, p2);
        lemma_read_object(d, e + 1, v, mode, x);
        lemma_dict_body_step(d, p, mode, x, acc, k, read_form(v), e, p2);
        lemma_read_entries_take(es, ji);
        lemma_read_entries_from(d, base, es, j + 1, mode, x);
    } else {
        assert(es.take(j as int) =~= es);
    }
}

/// Reading the entries `j..` of a written stream's dictionary, with `Length`
/// set to `n`, up to its `>>`.
#[verifier::spinoff_prover]
#[verifier::rlimit(60)]
pub proof fn lemma_read_stream_entries_from(
    d: Seq<u8>,
    base: int,
    es0: Seq<(Seq<u8>, Obj)>,
    n: nat,
    j: nat,
    mode: ParseMode,
    x: Option<Seq<ObjectInfo>>,
)
    requires
        0 <= base,
        readable_entries(es0),
        n <= u64::MAX,
        j <= with_length(es0, n).len(),
        base + entries_bytes(with_length(es0, n)).len() + 2 < d.len(),
        d.subrange(base, base + entries_bytes(with_length(es0, n)).len()) == entries_bytes(with_length(es0, n)),
        d[base + entries_bytes(with_length(es0, n)).len()] == 10u8,
        d[base + entries_bytes(with_length(es0, n)).len() + 1] == 62u8,
        d[base + entries_bytes(with_length(es0, n)).len() + 2] == 62u8,
    ensures
        spec_dict_body(d, entry_start(base, with_length(es0, n), j as int), mode, x, read_entries(with_length(es0, n).take(j as int)))
            == spec_dict_body(d, base + entries_bytes(with_length(es0, n)).len(), mode, x, read_entries(with_length(es0, n))),
    decreases es0, 1nat, with_length(es0, n).len() - j,
{
    let es = with_length(es0, n);
    let lv = Obj::Number(decimal_digits(n));
    lemma_decimal_word(n, u64::MAX as nat);
    assert(readable(lv));
    assert(plain_name(key_length()));
    lemma_readable_insert(es0, key_length(), lv);
    if j < es.len() {
        let ji = j as int;
        lemma_entry_at(d, base, es, ji);
        lemma_readable_entry(es, ji);
        let p = entry_start(base, es, ji);
        let p2 = entry_start(base, es, ji + 1);
        let k = es[ji].0;
        let v = es[ji].1;
        let ob = obj_bytes(v);
        let eb = entry_bytes(k, ob);
        assert(eb =~= seq![10u8, 47u8] + k + seq![32u8] + ob);
        assert forall|i: int| 0 <= i < eb.len() implies #[trigger] d[p + i] == eb[i] by {
            assert(d[p + i] == d.subrange(p, p2)[i]);
        }
        assert(d[p + 0] == eb[0]);
        lemma_next_word_skips_space(d, p);
        let e = p + 2 + k.len();
        assert(d[p + 1] == eb[1]);
        assert(skip_ws(d, p + 1, false) == Some(p + 1));
        assert forall|i: int| p + 2 <= i < e implies !spec_is_delimiter(#[trigger] d[i])
            && !spec_is_white_space(d[i]) by {
            assert(d[p + (i - p)] == eb[i - p]);
            assert(eb[i - p] == k[i - p - 2]);
        }
        assert(d[p + (2 + k.len())] == eb[(2 + k.len()) as int]);
        lemma_scan_to(d, p + 2, e);
        assert forall|i: int| 0 <= i < k.len() + 1 implies #[trigger] d.subrange(p + 1, e)[i] == (seq![47u8]
            + k)[i] by {
            assert(d[p + (1 + i)] == eb[1 + i]);
        }
        assert(d.subrange(p + 1, e) =~= seq![47u8] + k);
        assert(spec_next_word(d, p + 1) == (e, Ok::<(Seq<u8>, bool), PdfError>((seq![47u8] + k, false))));
        assert(k.take(0) =~= Seq::<u8>::empty());
        lemma_decode_plain(k, 1);
        let acc = read_entries(es.take(ji));
        lemma_read_entries_keys(es.take(ji));
        lemma_dict_find_from(es.take(ji), k, 0);
        lemma_dict_find_from(acc, k, 0);
        assert(dict_find(acc, k) is None) by {
            if dict_find(acc, k) is Some {
                let i = dict_find(acc, k)->0;
                assert(acc[i].0 == es.take(ji)[i].0);
            }
        }
        assert(dict_insert(acc, k, read_form(v)) == acc.push((k, read_form(v))));
        assert(d[p + (2 + k.len())] == 32u8);
        lemma_get_object_skips_space(d, e, mode, x);
        assert(d.subrange(e + 1, e + 1 + ob.len()) =~= ob) by {
            assert forall|i: int| 0 <= i < ob.len() implies #[trigger] d.subrange(e + 1, e + 1 + ob.len())[i]
                == ob[i] by {
                assert(d[p + (3 + k.len() + i)] == eb[3 + k.len() + i]);
            }
        }
        assert(e + 1 + ob.len() == p2);
        if ji + 1 < es.len() {
            lemma_entry_at(d, base, es, ji + 1);
            let nb = entry_bytes(es[ji + 1].0, obj_bytes(es[ji + 1].1));
            let p3 = entry_start(base, es, ji + 2);
            assert(d[p2] == d.subrange(p2, p3)[0]);
            assert(d[p2 + 1] == d.subrange(p2, p3)[1]);
            assert(nb[0] == 10u8 && nb[1] == 47u8);
        } else {
            assert(es.take(ji + 1) =~= es);
        }
        lemma_name_or_close_after(d, p2);
        lemma_dict_find_from(es0, key_length(), 0);
        if v == lv {
            lemma_read_atom(d, e + 1, lv, mode, x);
        } else {
            match dict_find(es0, key_length()) {
                Some(i) => {
                    assert(ji != i);
                    assert(es[ji] == es0[ji]);
                },
                None => {
                    assert(ji < es0.len());
                    assert(es[ji] == es0[ji]);
                },
            }
            lemma_read_object(d, e + 1, es0[ji].1, mode, x);
        }
        lemma_dict_body_step(d, p, mode, x, acc, k, read_form(v), e, p2);
        lemma_read_entries_take(es, ji);
        lemma_read_stream_entries_from(d, base, es0, n, j + 1, mode, x);
    } else {
        assert(es.take(j as int) =~= es);
    }
}

// ---------------------------------------------------------------- streams

/// A stream's dictionary as it is written: `Length` set to the length of its
/// data.
pub open spec fn with_length(es: Seq<(Seq<u8>, Obj)>, n: nat) -> Seq<(Seq<u8>, Obj)> {
    dict_insert(es, key_length(), Obj::Number(decimal_digits(n)))
}

/// The entries of a stream's dictionary are written as those of its
/// dictionary with `Length` set.
pub proof fn lemma_stream_entries_bytes(es: Seq<(Seq<u8>, Obj)>, n: nat)
    ensures
        stream_entries_bytes(es, decimal_digits(n)) == entries_bytes(with_length(es, n)),
{
    let lv = Obj::Number(decimal_digits(n));
    lemma_dict_find_from(es, key_length(), 0);
    let one = seq![(key_length(), lv)];
    assert(one.drop_last() =~= Seq::<(Seq<u8>, Obj)>::empty());
    assert(entries_bytes(Seq::<(Seq<u8>, Obj)>::empty()) =~= Seq::<u8>::empty());
    assert(one[0] == (key_length(), lv));
    assert(obj_bytes(lv) == decimal_digits(n));
    assert(entries_bytes(one) == entries_bytes(one.drop_last()) + entry_bytes(one[0].0, obj_bytes(one[0].1)));
    assert(entries_bytes(one) =~= entry_bytes(key_length(), decimal_digits(n)));
    match dict_find(es, key_length()) {
        None => {
            assert(es.push((key_length(), lv)).drop_last() =~= es);
        },
        Some(i) => {
            let a = es.take(i);
            let b = es.skip(i + 1);
            assert(es.update(i, (key_length(), lv)) =~= a + one + b);
            lemma_entries_bytes_concat(a + one, b);
            lemma_entries_bytes_concat(a, one);
        },
    }
}

/// `stream` ends a stream's dictionary, then a new line, its data, a new line
/// and `endstream`: the stream reads back with the data that its `Length`
/// gives.
#[verifier::spinoff_prover]
#[verifier::rlimit(60)]
proof fn lemma_stream_after_dict(
    d: Seq<u8>,
    q: int,
    acc: Seq<(Seq<u8>, Obj)>,
    data: Seq<u8>,
    mode: ParseMode,
    x: Option<Seq<ObjectInfo>>,
)
    requires
        0 <= q,
        data.len() <= u64::MAX,
        dict_get(acc, key_length()) == Some(Obj::Number(decimal_digits(data.len()))),
        q + stream_open().len() + data.len() + stream_close().len() <= d.len(),
        d.subrange(q, q + stream_open().len() + data.len() + stream_close().len()) == stream_open() + data
            + stream_close(),
        ok_after(d, q + stream_open().len() + data.len() + stream_close().len()),
    ensures
        spec_dict_end(d, q, mode, x, acc) == (
            q + stream_open().len() + data.len() + stream_close().len(),
            Ok::<Obj, PdfError>(Obj::Stream(acc, data)),
        ),
{
    let so = stream_open();
    let sc = stream_close();
    let all = so + data + sc;
    let ds = q + 8;
    let de = ds + data.len();
    let e = de + 10;
    assert forall|i: int| 0 <= i < all.len() implies #[trigger] d[q + i] == all[i] by {
        assert(d[q + i] == d.subrange(q, e)[i]);
    }
    assert(d[q + 0] == all[0]);
    lemma_next_word_skips_space(d, q);
    assert(d.subrange(q + 1, q + 7) =~= kw_stream()) by {
        assert forall|i: int| 0 <= i < 6 implies #[trigger] d.subrange(q + 1, q + 7)[i] == kw_stream()[i] by {
            assert(d[q + (1 + i)] == all[1 + i]);
        }
    }
    assert(d[q + 7] == all[7]);
    assert(word_bytes(kw_stream()));
    lemma_word_at(d, q + 1, kw_stream());
    assert(d[ds - 1] == 10u8);
    assert(d[q + 7] == 10u8);
    assert(spec_consume_stream_start(d, q + 7, mode) == (ds, Ok::<(), PdfError>(())));
    lemma_decimal_digits_number(data.len());
    assert(spec_number_as(decimal_digits(data.len()), u64::MAX as int) == Ok::<u64, PdfError>(data.len() as u64));
    assert(key_length() == seq![76u8, 101u8, 110u8, 103u8, 116u8, 104u8]);
    assert(spec_resolve_length(d, ds, mode, x, acc) == (ds, Ok::<Option<int>, PdfError>(Some(data.len() as int))));
    assert(d.subrange(ds, de) =~= data) by {
        assert forall|i: int| 0 <= i < data.len() implies #[trigger] d.subrange(ds, de)[i] == data[i] by {
            assert(d[q + (8 + i)] == all[8 + i]);
        }
    }
    assert(d[q + (8 + data.len())] == all[(8 + data.len()) as int]);
    assert(d[de] == 10u8);
    assert(d.subrange(de + 1, e) =~= kw_endstream()) by {
        assert forall|i: int| 0 <= i < 9 implies #[trigger] d.subrange(de + 1, e)[i] == kw_endstream()[i] by {
            assert(d[q + (9 + data.len() + i)] == all[9 + data.len() + i]);
        }
    }
    assert(word_bytes(kw_endstream()));
    lemma_word_at(d, de + 1, kw_endstream());
    assert(spec_expect_endstream(d, de) == (e, Ok::<bool, PdfError>(true)));
    assert(spec_stream_with_length(d, ds, data.len() as int) == (e, Ok::<Option<Seq<u8>>, PdfError>(Some(data))));
    assert(spec_read_stream(d, q + 7, mode, x, acc) == (e, Ok::<Obj, PdfError>(Obj::Stream(acc, data))));
}

/// A written stream, with what lets it end after it, reads back with its
/// data and its dictionary with `Length` set.
#[verifier::spinoff_prover]
#[verifier::rlimit(60)]
pub proof fn lemma_read_stream(
    d: Seq<u8>,
    p: int,
    es: Seq<(Seq<u8>, Obj)>,
    data: Seq<u8>,
    mode: ParseMode,
    x: Option<Seq<ObjectInfo>>,
)
    requires
        readable_entries(es),
        data.len() <= u64::MAX,
        written_at(d, p, Obj::Stream(es, data)),
        ok_after(d, p + obj_bytes(Obj::Stream(es, data)).len()),
    ensures
        spec_get_object(d, p, mode, x) == (
            p + obj_bytes(Obj::Stream(es, data)).len(),
            Ok::<Obj, PdfError>(read_form(Obj::Stream(es, data))),
        ),
    decreases es, 2nat, 0nat,
{
    let o = Obj::Stream(es, data);
    let ob = obj_bytes(o);
    let e = p + ob.len();
    let n = data.len();
    let es2 = with_length(es, n);
    lemma_stream_entries_bytes(es, n);
    lemma_decimal_word(n, u64::MAX as nat);
    assert(readable(Obj::Number(decimal_digits(n))));
    assert(plain_name(key_length()));
    lemma_readable_insert(es, key_length(), Obj::Number(decimal_digits(n)));
    let eb = entries_bytes(es2);
    let end = p + 2 + eb.len();
    let tail = stream_open() + data + stream_close();
    assert(ob =~= seq![60u8, 60u8] + eb + seq![10u8, 62u8, 62u8] + tail);
    lemma_written_bytes(d, p, o);
    assert(d[p + 0] == ob[0]);
    assert(d[p + 1] == ob[1]);
    assert(skip_ws(d, p, false) == Some(p));
    assert(spec_next_word(d, p) == (p + 2, Ok::<(Seq<u8>, bool), PdfError>((kw_dict_open(), false))));
    assert(d.subrange(p + 2, end) =~= eb) by {
        assert forall|i: int| 0 <= i < eb.len() implies #[trigger] d.subrange(p + 2, end)[i] == eb[i] by {
            assert(d[p + (2 + i)] == ob[2 + i]);
        }
    }
    assert(d[p + (2 + eb.len())] == ob[(2 + eb.len()) as int]);
    assert(d[p + (3 + eb.len())] == ob[(3 + eb.len()) as int]);
    assert(d[p + (4 + eb.len())] == ob[(4 + eb.len()) as int]);
    assert(es2.take(0) =~= Seq::<(Seq<u8>, Obj)>::empty());
    assert(read_entries(Seq::<(Seq<u8>, Obj)>::empty()) =~= Seq::<(Seq<u8>, Obj)>::empty());
    assert(entries_bytes(Seq::<(Seq<u8>, Obj)>::empty()) =~= Seq::<u8>::empty());
    lemma_read_stream_entries_from(d, p + 2, es, n, 0, mode, x);
    assert(es2.take(es2.len() as int) =~= es2);
    lemma_next_word_skips_space(d, end);
    assert(skip_ws(d, end + 1, false) == Some(end + 1));
    assert(spec_next_word(d, end) == (end + 3, Ok::<(Seq<u8>, bool), PdfError>((kw_dict_close(), false))));
    let acc = read_entries(es2);
    lemma_read_entries_insert(es, key_length(), Obj::Number(decimal_digits(n)));
    lemma_dict_insert_get(read_entries(es), key_length(), Obj::Number(decimal_digits(n)));
    assert(d.subrange(end + 3, e) =~= tail) by {
        assert forall|i: int| 0 <= i < tail.len() implies #[trigger] d.subrange(end + 3, e)[i] == tail[i] by {
            assert(d[p + (5 + eb.len() + i)] == ob[5 + eb.len() + i]);
        }
    }
    lemma_stream_after_dict(d, end + 3, acc, data, mode, x);
    assert(spec_dict_body(d, end, mode, x, acc) == spec_dict_end(d, end + 3, mode, x, acc));
    assert(kw_dict_open() != kw_true() && kw_dict_open() != kw_false() && kw_dict_open() != kw_null());
    assert(kw_dict_open() != seq![40u8] && kw_dict_open() != seq![60u8] && kw_dict_open() != seq![91u8]);
    assert(kw_dict_open()[0] != 47u8);
}

/// Inserting under one key leaves what another key gives.
pub proof fn lemma_dict_insert_other(es: Seq<(Seq<u8>, Obj)>, k: Seq<u8>, v: Obj, q: Seq<u8>)
    requires
        q != k,
    ensures
        dict_get(dict_insert(es, k, v), q) == dict_get(es, q),
{
    lemma_dict_find_from(es, k, 0);
    lemma_dict_find_from(es, q, 0);
    let r = dict_insert(es, k, v);
    lemma_dict_find_from(r, q, 0);
    match dict_find(es, k) {
        Some(i) => {
            assert forall|j: int| 0 <= j < es.len() implies (#[trigger] es[j]).0 == r[j].0 by {
                if j == i {
                    assert(r[j] == (k, v));
                }
            }
            lemma_dict_find_same_keys(es, r, q, 0);
        },
        None => {
            if dict_find(r, q) is Some {
                let j = dict_find(r, q)->0;
                if j < es.len() {
                    assert(r[j] == es[j]);
                }
            }
            if dict_find(es, q) is Some {
                let j = dict_find(es, q)->0;
                assert(r[j] == es[j]);
            }
        },
    }
}

/// What a key gives in entries read back is what it gave, read back.
pub proof fn lemma_read_entries_get(es: Seq<(Seq<u8>, Obj)>, q: Seq<u8>)
    ensures
        dict_get(read_entries(es), q) == match dict_get(es, q) {
            Some(v) => Some(read_form(v)),
            None => None,
        },
{
    lemma_read_entries_index(es);
    lemma_dict_find_same_keys(es, read_entries(es), q, 0);
    lemma_dict_find_from(es, q, 0);
}

/// A value reads back as a name exactly when it is that name.
pub proof fn lemma_read_form_name(v: Obj, n: Seq<u8>)
    ensures
        (read_form(v) == Obj::Name(n)) == (v == Obj::Name(n)),
{
}

// ---------------------------------------------------------------- indirect objects

/// A new line, then a word that is not a number, `stream` or `R`, lets an
/// object before it end.
pub proof fn lemma_word_after(d: Seq<u8>, q: int, w: Seq<u8>)
    requires
        0 <= q,
        d[q] == 10u8,
        w.len() > 0,
        word_bytes(w),
        !spec_is_number_token(w),
        w != kw_stream(),
        w != kw_r(),
        q + 1 + w.len() < d.len(),
        d.subrange(q + 1, q + 1 + w.len()) == w,
        spec_is_white_space(d[q + 1 + w.len()]),
    ensures
        ok_after(d, q),
        spec_next_word(d, q) == (q + 1 + w.len(), Ok::<(Seq<u8>, bool), PdfError>((w, false))),
{
    lemma_next_word_skips_space(d, q);
    lemma_word_at(d, q + 1, w);
}

/// The words of an indirect object's head, `n g obj`, and what follows its
/// object, `endobj`, read as written.
#[verifier::spinoff_prover]
#[verifier::rlimit(60)]
proof fn lemma_indirect_frame(d: Seq<u8>, p0: int, id: ObjectId, ob: Seq<u8>)
    requires
        0 <= p0,
        id.gen_num <= u16::MAX,
        p0 + decimal_digits(id.obj_num as nat).len() + decimal_digits(id.gen_num as nat).len() + ob.len() + 14
            <= d.len(),
        d.subrange(
            p0,
            p0 + decimal_digits(id.obj_num as nat).len() + decimal_digits(id.gen_num as nat).len() + ob.len() + 14,
        ) == decimal_digits(id.obj_num as nat) + seq![32u8] + decimal_digits(id.gen_num as nat) + seq![32u8]
            + kw_obj() + seq![10u8] + ob + seq![10u8] + kw_endobj() + seq![10u8],
    ensures
        ({
            let dn = decimal_digits(id.obj_num as nat);
            let dg = decimal_digits(id.gen_num as nat);
            let p1 = p0 + dn.len();
            let p2 = p1 + 1 + dg.len();
            let p3 = p2 + 1 + 3;
            let p4 = p3 + 1 + ob.len();
            &&& spec_next_word(d, p0) == (p1, Ok::<(Seq<u8>, bool), PdfError>((dn, true)))
            &&& spec_word_unsigned(dn, true, u32::MAX as nat) == Ok::<nat, PdfError>(id.obj_num as nat)
            &&& spec_next_word(d, p1) == (p2, Ok::<(Seq<u8>, bool), PdfError>((dg, true)))
            &&& spec_word_unsigned(dg, true, u16::MAX as nat) == Ok::<nat, PdfError>(id.gen_num as nat)
            &&& spec_next_word(d, p2) == (p3, Ok::<(Seq<u8>, bool), PdfError>((kw_obj(), false)))
            &&& d[p3] == 10u8
            &&& p3 + 2 < d.len()
            &&& d.subrange(p3 + 1, p4) == ob
            &&& ok_after(d, p4)
            &&& spec_next_word(d, p4) == (p4 + 7, Ok::<(Seq<u8>, bool), PdfError>((kw_endobj(), false)))
        }),
{
    let dn = decimal_digits(id.obj_num as nat);
    let dg = decimal_digits(id.gen_num as nat);
    let endobj = kw_endobj();
    let fr = dn + seq![32u8] + dg + seq![32u8] + kw_obj() + seq![10u8] + ob + seq![10u8] + endobj + seq![10u8];
    lemma_decimal_word(id.obj_num as nat, u32::MAX as nat);
    lemma_decimal_word(id.gen_num as nat, u16::MAX as nat);
    let p1 = p0 + dn.len();
    let p2 = p1 + 1 + dg.len();
    let p3 = p2 + 1 + 3;
    let p4 = p3 + 1 + ob.len();
    let pe = p4 + 8;
    assert forall|i: int| 0 <= i < fr.len() implies #[trigger] d[p0 + i] == fr[i] by {
        assert(d[p0 + i] == d.subrange(p0, pe)[i]);
    }
    assert(d.subrange(p0, p1) =~= dn);
    assert(d[p0 + (dn.len() as int)] == fr[dn.len() as int]);
    lemma_word_at(d, p0, dn);
    lemma_next_word_skips_space(d, p1);
    assert(d.subrange(p1 + 1, p2) =~= dg) by {
        assert forall|i: int| 0 <= i < dg.len() implies #[trigger] d.subrange(p1 + 1, p2)[i] == dg[i] by {
            assert(d[p0 + (dn.len() + 1 + i)] == fr[dn.len() + 1 + i]);
        }
    }
    assert(d[p0 + (dn.len() + 1 + dg.len())] == fr[(dn.len() + 1 + dg.len()) as int]);
    lemma_word_at(d, p1 + 1, dg);
    lemma_next_word_skips_space(d, p2);
    assert(d.subrange(p2 + 1, p3) =~= kw_obj()) by {
        assert forall|i: int| 0 <= i < 3 implies #[trigger] d.subrange(p2 + 1, p3)[i] == kw_obj()[i] by {
            assert(d[p0 + (dn.len() + 2 + dg.len() + i)] == fr[dn.len() + 2 + dg.len() + i]);
        }
    }
    assert(d[p0 + (dn.len() + 5 + dg.len())] == fr[(dn.len() + 5 + dg.len()) as int]);
    assert(word_bytes(kw_obj()));
    assert(!spec_is_number_token(kw_obj()));
    lemma_word_at(d, p2 + 1, kw_obj());
    assert(d.subrange(p3 + 1, p4) =~= ob) by {
        assert forall|i: int| 0 <= i < ob.len() implies #[trigger] d.subrange(p3 + 1, p4)[i] == ob[i] by {
            assert(d[p0 + (dn.len() + 6 + dg.len() + i)] == fr[dn.len() + 6 + dg.len() + i]);
        }
    }
    assert(d[p0 + (dn.len() + 6 + dg.len() + ob.len())] == fr[(dn.len() + 6 + dg.len() + ob.len()) as int]);
    assert(d.subrange(p4 + 1, p4 + 7) =~= endobj) by {
        assert forall|i: int| 0 <= i < 6 implies #[trigger] d.subrange(p4 + 1, p4 + 7)[i] == endobj[i] by {
            assert(d[p0 + (dn.len() + 7 + dg.len() + ob.len() + i)] == fr[dn.len() + 7 + dg.len() + ob.len()
                + i]);
        }
    }
    assert(d[p0 + (dn.len() + 13 + dg.len() + ob.len())] == fr[(dn.len() + 13 + dg.len() + ob.len()) as int]);
    assert(word_bytes(endobj));
    assert(!spec_is_number_token(endobj));
    assert(endobj != kw_stream() && endobj != kw_r());
    lemma_word_after(d, p4, endobj);
}

/// An indirect object, as the writer writes it, reads back with its numbers
/// and its object, whatever comes before or after it.
#[verifier::spinoff_prover]
#[verifier::rlimit(60)]
pub proof fn law_written_object_reads_back(
    pre: Seq<u8>,
    id: ObjectId,
    o: Obj,
    rest: Seq<u8>,
    mode: ParseMode,
    x: Option<Seq<ObjectInfo>>,
)
    requires
        readable(o),
        id.gen_num <= u16::MAX,
    ensures
        spec_get_indirect(pre + indirect_bytes(id, o) + rest, pre.len() as int, mode, x).1 == Ok::<
            (u32, u16, Obj),
            PdfError,
        >((id.obj_num, id.gen_num as u16, read_form(o))),
{
    let ob = obj_bytes(o);
    let dn = decimal_digits(id.obj_num as nat);
    let dg = decimal_digits(id.gen_num as nat);
    let d = pre + indirect_bytes(id, o) + rest;
    let p0 = pre.len() as int;
    let fr = dn + seq![32u8] + dg + seq![32u8] + kw_obj() + seq![10u8] + ob + seq![10u8] + kw_endobj() + seq![
        10u8,
    ];
    assert(indirect_bytes(id, o) =~= fr);
    assert(d.subrange(p0, p0 + fr.len()) =~= fr);
    lemma_indirect_frame(d, p0, id, ob);
    let p1 = p0 + dn.len();
    let p2 = p1 + 1 + dg.len();
    let p3 = p2 + 1 + 3;
    let p4 = p3 + 1 + ob.len();
    lemma_get_object_skips_space(d, p3, mode, x);
    lemma_read_object(d, p3 + 1, o, mode, x);
    lemma_indirect_shape(
        d,
        p0,
        mode,
        x,
        dn,
        dg,
        id.obj_num as nat,
        id.gen_num as nat,
        read_form(o),
        p1,
        p2,
        p3,
        p4,
        p4 + 7,
    );
}

} // verus!
